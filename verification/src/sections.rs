//! Sections: the connectivity partition of the map, and the scored
//! connection candidates between neighboring sections.
//!
//! Scores are per-mille fixed-point values: `SCORE_MAX` stands for 1.0,
//! `0` for 0.0.

use vstd::prelude::*;

use crate::cell_matrix::Cell;
use crate::cell_matrix::CellMatrix;
use crate::direction::Direction;

verus! {

/// The score scale: `SCORE_MAX` is a full score of 1.0, in thousandths.
pub const SCORE_MAX: u32 = 1000;

/// One scored connection candidate: a gap at `(x, y)` toward the section
/// with index `id`, approached along `direction`.
#[derive(Clone, Copy, Debug, PartialEq, Eq, Structural)]
pub struct Connection {
    pub x: u16,
    pub y: u16,
    pub id: usize,
    pub score: u32,
    pub direction: Direction,
}

/// One connectivity class: a room or corridor strand, with the scored
/// connection candidates discovered around it. Equality is by id only.
#[derive(Clone, Debug)]
pub struct Section {
    pub id: usize,
    pub connections: Vec<Connection>,
}

impl Section {
    /// A fresh section with no connections.
    pub fn new(id: usize) -> (s: Section)
        ensures
            s.id == id,
            s.connections@.len() == 0,
    {
        Section { id, connections: Vec::new() }
    }

    /// Relabel this section.
    pub fn set_id(&mut self, id: usize)
        ensures
            final(self).id == id,
            final(self).connections == old(self).connections,
    {
        self.id = id;
    }

    /// The current id.
    pub fn get_id(&self) -> (r: usize)
        ensures
            r == self.id,
    {
        self.id
    }

    /// Append a connection candidate; duplicates are kept at this layer.
    pub fn add_connection(&mut self, x: u16, y: u16, id: usize, score: u32, direction: Direction)
        ensures
            final(self).id == old(self).id,
            final(self).connections@ == old(self).connections@.push(
                Connection { x, y, id, score, direction },
            ),
    {
        self.connections.push(Connection { x, y, id, score, direction });
    }

    /// All recorded connection candidates, in recording order.
    pub fn get_connections(&self) -> (r: &Vec<Connection>)
        ensures
            r@ == self.connections@,
    {
        &self.connections
    }
}

impl PartialEq for Section {
    /// Sections are equal exactly when their ids are.
    fn eq(&self, o: &Section) -> (r: bool) {
        self.id == o.id
    }
}

impl vstd::std_specs::cmp::PartialEqSpecImpl for Section {
    open spec fn obeys_eq_spec() -> bool {
        true
    }

    open spec fn eq_spec(&self, o: &Section) -> bool {
        self.id == o.id
    }
}

/// The width of the walkable rectangle a connection opens: the corridor
/// width across a vertical gap, the horizontal margin along a horizontal
/// one.
pub open spec fn conn_rect_w(c: Connection, cs: (u8, u8), mg: (u8, u8)) -> int {
    match c.direction {
        Direction::N | Direction::S => cs.0 as int,
        Direction::E | Direction::W => mg.0 as int,
    }
}

/// The height of the walkable rectangle a connection opens.
pub open spec fn conn_rect_h(c: Connection, cs: (u8, u8), mg: (u8, u8)) -> int {
    match c.direction {
        Direction::N | Direction::S => mg.1 as int,
        Direction::E | Direction::W => cs.1 as int,
    }
}

/// The rectangle a connection opens fits the map.
pub open spec fn conn_in_bounds(m: CellMatrix, c: Connection, cs: (u8, u8), mg: (u8, u8)) -> bool {
    c.x + conn_rect_w(c, cs, mg) <= m.width && c.y + conn_rect_h(c, cs, mg) <= m.height
}

/// The rectangle a connection would open holds nothing but breakable rock
/// and already opened connection cells.
pub open spec fn conn_rect_cells_ok(m: CellMatrix, c: Connection, cs: (u8, u8), mg: (u8, u8)) -> bool {
    forall|a: int, b: int|
        c.x <= a < c.x + conn_rect_w(c, cs, mg) && c.y <= b < c.y + conn_rect_h(c, cs, mg) ==> ((
        #[trigger] m.cell_at(a, b)) is Rock || m.cell_at(a, b) is Connection)
}

/// A stored connection candidate is usable: it points to a live section,
/// its score is in range, its rectangle fits the map, and that rectangle
/// holds only rock or opened connection cells.
pub open spec fn conn_valid(m: CellMatrix, c: Connection, cs: (u8, u8), mg: (u8, u8)) -> bool {
    &&& c.id < m.section_vec@.len()
    &&& c.score <= SCORE_MAX
    &&& conn_in_bounds(m, c, cs, mg)
    &&& conn_rect_cells_ok(m, c, cs, mg)
}

/// Every connection stored in any section is usable.
pub open spec fn all_conns_valid(m: CellMatrix, cs: (u8, u8), mg: (u8, u8)) -> bool {
    forall|j: int, k: int|
        0 <= j < m.section_vec@.len() && 0 <= k < m.section_vec@[j].connections@.len()
            ==> conn_valid(m, #[trigger] m.section_vec@[j].connections@[k], cs, mg)
}

/// `(a, b)` lies in the rectangle some stored connection opens.
pub open spec fn in_some_conn_rect(m: CellMatrix, cs: (u8, u8), mg: (u8, u8), a: int, b: int) -> bool {
    exists|j: int, k: int|
        #![trigger m.section_vec@[j].connections@[k]]
        0 <= j < m.section_vec@.len() && 0 <= k < m.section_vec@[j].connections@.len() && {
            let c = m.section_vec@[j].connections@[k];
            c.x <= a < c.x + conn_rect_w(c, cs, mg) && c.y <= b < c.y + conn_rect_h(c, cs, mg)
        }
}

/// The probe rectangle at `(x, y)` belongs consistently to the section with
/// index `target`: every cell is owned, and by a section carrying the same
/// id.
pub open spec fn probe_consistent(
    m: CellMatrix,
    x: int,
    y: int,
    cs: (u8, u8),
    target: int,
) -> bool {
    forall|a: int, b: int|
        x <= a < x + cs.0 && y <= b < y + cs.1 ==> {
            &&& (#[trigger] m.spec_section_at(a, b)) is Some
            &&& m.section_vec@[m.spec_section_at(a, b).unwrap() as int].id
                == m.section_vec@[target].id
        }
}

/// The triangular score of a room crossing: full at the room's center line,
/// falling off linearly to zero at its edge, in thousandths.
pub open spec fn spec_room_score(rx: int, rdim: int, position: int, c: int) -> int {
    if rdim <= 0 {
        0
    } else {
        let t = 2 * position + c - 2 * rx - rdim;
        let d = if t < 0 {
            -t
        } else {
            t
        };
        let s = SCORE_MAX - SCORE_MAX * d / rdim;
        if s < 0 {
            0
        } else {
            s
        }
    }
}

/// The score of one side of a gap: full for a corridor, triangular for a
/// room, zero for unowned ground. The flag picks the axis measured: `true`
/// compares `x` against the room's width, `false` compares `y` against its
/// height.
pub open spec fn spec_score_at(
    m: CellMatrix,
    cs: (u8, u8),
    x: int,
    y: int,
    horizontal: bool,
) -> int {
    match m.cell_at(x, y) {
        Cell::Room(idx) => {
            let r = m.room_vec@[idx as int];
            if horizontal {
                spec_room_score(r.x as int, r.width as int, x, cs.0 as int)
            } else {
                spec_room_score(r.y as int, r.height as int, y, cs.1 as int)
            }
        },
        Cell::Corridor(_) => SCORE_MAX as int,
        _ => 0,
    }
}

/// The left section of a horizontal gap at `(x, y)`.
pub open spec fn h_left(m: CellMatrix, cs: (u8, u8), x: int, y: int) -> Option<usize> {
    m.spec_section_at(x - cs.0, y)
}

/// The right section of a horizontal gap at `(x, y)`.
pub open spec fn h_right(m: CellMatrix, mg: (u8, u8), x: int, y: int) -> Option<usize> {
    m.spec_section_at(x + mg.0, y)
}

/// The upper section of a vertical gap at `(x, y)`.
pub open spec fn v_top(m: CellMatrix, cs: (u8, u8), x: int, y: int) -> Option<usize> {
    m.spec_section_at(x, y - cs.1)
}

/// The lower section of a vertical gap at `(x, y)`.
pub open spec fn v_bottom(m: CellMatrix, mg: (u8, u8), x: int, y: int) -> Option<usize> {
    m.spec_section_at(x, y + mg.1)
}

/// A valid horizontal gap: a strip of uncarved rock, one horizontal margin
/// wide, whose two side probes are each consistently owned, by sections of
/// different ids.
pub open spec fn h_gap_at(m: CellMatrix, cs: (u8, u8), mg: (u8, u8), x: int, y: int) -> bool {
    let lo = h_left(m, cs, x, y);
    let ro = h_right(m, mg, x, y);
    &&& m.cell_at(x, y) is Rock
    &&& (forall|a: int, b: int|
        x <= a < x + mg.0 && y <= b < y + cs.1 ==> (#[trigger] m.cell_at(a, b)) is Rock)
    &&& lo is Some
    &&& ro is Some
    &&& m.section_vec@[lo.unwrap() as int].id != m.section_vec@[ro.unwrap() as int].id
    &&& probe_consistent(m, x - cs.0, y, cs, lo.unwrap() as int)
    &&& probe_consistent(m, x + mg.0, y, cs, ro.unwrap() as int)
}

/// A valid vertical gap, symmetrically.
pub open spec fn v_gap_at(m: CellMatrix, cs: (u8, u8), mg: (u8, u8), x: int, y: int) -> bool {
    let to = v_top(m, cs, x, y);
    let bo = v_bottom(m, mg, x, y);
    &&& m.cell_at(x, y) is Rock
    &&& (forall|a: int, b: int|
        x <= a < x + cs.0 && y <= b < y + mg.1 ==> (#[trigger] m.cell_at(a, b)) is Rock)
    &&& to is Some
    &&& bo is Some
    &&& m.section_vec@[to.unwrap() as int].id != m.section_vec@[bo.unwrap() as int].id
    &&& probe_consistent(m, x, y - cs.1, cs, to.unwrap() as int)
    &&& probe_consistent(m, x, y + mg.1, cs, bo.unwrap() as int)
}

/// The score both sides of a horizontal gap agree on: the worse of the two.
pub open spec fn h_gap_score(m: CellMatrix, cs: (u8, u8), mg: (u8, u8), x: int, y: int) -> int {
    let ls = spec_score_at(m, cs, x - cs.0, y, false);
    let rs = spec_score_at(m, cs, x + mg.0, y, false);
    if ls < rs {
        ls
    } else {
        rs
    }
}

/// The score both sides of a vertical gap agree on.
pub open spec fn v_gap_score(m: CellMatrix, cs: (u8, u8), mg: (u8, u8), x: int, y: int) -> int {
    let ts = spec_score_at(m, cs, x, y - cs.1, true);
    let bs = spec_score_at(m, cs, x, y + mg.1, true);
    if ts < bs {
        ts
    } else {
        bs
    }
}

/// The entry `e`, stored in section `j`, records a gap the discovery phase
/// found valid between two distinct sections, with `e.id` naming the
/// section on the other side and the agreed score.
pub open spec fn recorded_conn(
    m: CellMatrix,
    cs: (u8, u8),
    mg: (u8, u8),
    j: usize,
    e: Connection,
) -> bool {
    match e.direction {
        Direction::E => {
            &&& h_gap_at(m, cs, mg, e.x as int, e.y as int)
            &&& Some(j) == h_left(m, cs, e.x as int, e.y as int)
            &&& Some(e.id) == h_right(m, mg, e.x as int, e.y as int)
            &&& e.score == h_gap_score(m, cs, mg, e.x as int, e.y as int)
        },
        Direction::W => {
            &&& h_gap_at(m, cs, mg, e.x as int, e.y as int)
            &&& Some(j) == h_right(m, mg, e.x as int, e.y as int)
            &&& Some(e.id) == h_left(m, cs, e.x as int, e.y as int)
            &&& e.score == h_gap_score(m, cs, mg, e.x as int, e.y as int)
        },
        Direction::S => {
            &&& v_gap_at(m, cs, mg, e.x as int, e.y as int)
            &&& Some(j) == v_top(m, cs, e.x as int, e.y as int)
            &&& Some(e.id) == v_bottom(m, mg, e.x as int, e.y as int)
            &&& e.score == v_gap_score(m, cs, mg, e.x as int, e.y as int)
        },
        Direction::N => {
            &&& v_gap_at(m, cs, mg, e.x as int, e.y as int)
            &&& Some(j) == v_bottom(m, mg, e.x as int, e.y as int)
            &&& Some(e.id) == v_top(m, cs, e.x as int, e.y as int)
            &&& e.score == v_gap_score(m, cs, mg, e.x as int, e.y as int)
        },
    }
}

/// A consistent probe names the same sections on any map with the same
/// grid, rooms, corridors and section ids.
proof fn lemma_probe_same(m1: CellMatrix, m2: CellMatrix, x: int, y: int, cs: (u8, u8), t: int)
    requires
        m1.dims_ok(),
        m1.sections_valid(),
        m2.cell_vector@ == m1.cell_vector@,
        m2.width == m1.width,
        m2.height == m1.height,
        m2.room_vec@ == m1.room_vec@,
        m2.corridor_vec@ == m1.corridor_vec@,
        m2.section_vec@.len() == m1.section_vec@.len(),
        forall|s: int|
            0 <= s < m1.section_vec@.len() ==> (#[trigger] m2.section_vec@[s]).id
                == m1.section_vec@[s].id,
        0 <= t < m1.section_vec@.len(),
        probe_consistent(m1, x, y, cs, t),
    ensures
        probe_consistent(m2, x, y, cs, t),
{
    crate::labyrinth_generator::lemma_same_cells(m1, m2);
    assert forall|a: int, b: int| x <= a < x + cs.0 && y <= b < y + cs.1 implies {
        &&& (#[trigger] m2.spec_section_at(a, b)) is Some
        &&& m2.section_vec@[m2.spec_section_at(a, b).unwrap() as int].id == m2.section_vec@[t].id
    } by {
        assert(m1.spec_section_at(a, b) is Some);
        assert(m2.cell_at(a, b) == m1.cell_at(a, b));
        assert(m2.spec_section_at(a, b) == m1.spec_section_at(a, b));
        let idx = m1.spec_section_at(a, b).unwrap();
        if m1.in_bounds(a, b) {
            crate::cell_matrix::lemma_grid_index(m1.width as int, m1.height as int, a, b);
            assert(m1.tag_valid(m1.cell_vector@[b * m1.width as int + a]));
        }
        assert(idx < m1.section_vec@.len());
    }
}

/// A recorded gap stays recorded on any map with the same grid, rooms,
/// corridors and section ids; only relabeling or recarving could unmake it.
pub proof fn lemma_recorded_same(
    m1: CellMatrix,
    m2: CellMatrix,
    cs: (u8, u8),
    mg: (u8, u8),
    j: usize,
    e: Connection,
)
    requires
        m1.dims_ok(),
        m1.sections_valid(),
        m2.cell_vector@ == m1.cell_vector@,
        m2.width == m1.width,
        m2.height == m1.height,
        m2.room_vec@ == m1.room_vec@,
        m2.corridor_vec@ == m1.corridor_vec@,
        m2.section_vec@.len() == m1.section_vec@.len(),
        forall|s: int|
            0 <= s < m1.section_vec@.len() ==> (#[trigger] m2.section_vec@[s]).id
                == m1.section_vec@[s].id,
        recorded_conn(m1, cs, mg, j, e),
    ensures
        recorded_conn(m2, cs, mg, j, e),
{
    crate::labyrinth_generator::lemma_same_cells(m1, m2);
    let x = e.x as int;
    let y = e.y as int;
    assert forall|a: int, b: int|
        #![trigger m2.spec_section_at(a, b)]
        #![trigger m1.spec_section_at(a, b)]
        true implies m2.spec_section_at(a, b) == m1.spec_section_at(a, b) by {
        assert(m2.cell_at(a, b) == m1.cell_at(a, b));
    }
    assert forall|a: int, b: int, horizontal: bool|
        #![trigger spec_score_at(m2, cs, a, b, horizontal)]
        true implies spec_score_at(m2, cs, a, b, horizontal) == spec_score_at(
        m1,
        cs,
        a,
        b,
        horizontal,
    ) by {
        assert(m2.cell_at(a, b) == m1.cell_at(a, b));
    }
    match e.direction {
        Direction::E | Direction::W => {
            let li = h_left(m1, cs, x, y).unwrap() as int;
            let ri = h_right(m1, mg, x, y).unwrap() as int;
            assert(m1.spec_section_at(x - cs.0, y) is Some);
            if m1.in_bounds(x - cs.0, y) {
                crate::cell_matrix::lemma_grid_index(
                    m1.width as int,
                    m1.height as int,
                    x - cs.0,
                    y,
                );
                assert(m1.tag_valid(m1.cell_vector@[y * m1.width as int + (x - cs.0)]));
            }
            if m1.in_bounds(x + mg.0, y) {
                crate::cell_matrix::lemma_grid_index(
                    m1.width as int,
                    m1.height as int,
                    x + mg.0,
                    y,
                );
                assert(m1.tag_valid(m1.cell_vector@[y * m1.width as int + (x + mg.0)]));
            }
            lemma_probe_same(m1, m2, x - cs.0, y, cs, li);
            lemma_probe_same(m1, m2, x + mg.0, y, cs, ri);
        },
        Direction::N | Direction::S => {
            let ti = v_top(m1, cs, x, y).unwrap() as int;
            let bi = v_bottom(m1, mg, x, y).unwrap() as int;
            assert(m1.spec_section_at(x, y - cs.1) is Some);
            if m1.in_bounds(x, y - cs.1) {
                crate::cell_matrix::lemma_grid_index(
                    m1.width as int,
                    m1.height as int,
                    x,
                    y - cs.1,
                );
                assert(m1.tag_valid(m1.cell_vector@[(y - cs.1) * m1.width as int + x]));
            }
            if m1.in_bounds(x, y + mg.1) {
                crate::cell_matrix::lemma_grid_index(
                    m1.width as int,
                    m1.height as int,
                    x,
                    y + mg.1,
                );
                assert(m1.tag_valid(m1.cell_vector@[(y + mg.1) * m1.width as int + x]));
            }
            lemma_probe_same(m1, m2, x, y - cs.1, cs, ti);
            lemma_probe_same(m1, m2, x, y + mg.1, cs, bi);
        },
    }
}

/// From `pre` to `post`, sections keep their count and ids and only gain
/// connection entries at the end of their lists.
pub open spec fn conns_extended(pre: CellMatrix, post: CellMatrix) -> bool {
    &&& post.section_vec@.len() == pre.section_vec@.len()
    &&& forall|j: int|
        0 <= j < pre.section_vec@.len() ==> {
            &&& (#[trigger] post.section_vec@[j]).id == pre.section_vec@[j].id
            &&& pre.section_vec@[j].connections@.len() <= post.section_vec@[j].connections@.len()
            &&& forall|k: int|
                0 <= k < pre.section_vec@[j].connections@.len()
                    ==> #[trigger] post.section_vec@[j].connections@[k]
                    == pre.section_vec@[j].connections@[k]
        }
}

/// Every entry `post` holds beyond `pre` records a gap that is valid in
/// `base`.
pub open spec fn new_conns_recorded(
    base: CellMatrix,
    pre: CellMatrix,
    post: CellMatrix,
    cs: (u8, u8),
    mg: (u8, u8),
) -> bool {
    forall|j: int, k: int|
        0 <= j < post.section_vec@.len() && j < pre.section_vec@.len()
            && pre.section_vec@[j].connections@.len() <= k
            < post.section_vec@[j].connections@.len() ==> recorded_conn(
            base,
            cs,
            mg,
            j as usize,
            #[trigger] post.section_vec@[j].connections@[k],
        )
}

/// Growing connection lists composes.
pub proof fn lemma_extend_trans(a: CellMatrix, b: CellMatrix, c: CellMatrix)
    requires
        conns_extended(a, b),
        conns_extended(b, c),
    ensures
        conns_extended(a, c),
{
}

/// Entries recorded across two extensions are recorded across the whole.
pub proof fn lemma_recorded_trans(
    base: CellMatrix,
    a: CellMatrix,
    b: CellMatrix,
    c: CellMatrix,
    cs: (u8, u8),
    mg: (u8, u8),
)
    requires
        conns_extended(a, b),
        conns_extended(b, c),
        new_conns_recorded(base, a, b, cs, mg),
        new_conns_recorded(base, b, c, cs, mg),
    ensures
        new_conns_recorded(base, a, c, cs, mg),
{
    assert forall|j: int, k: int|
        0 <= j < c.section_vec@.len() && j < a.section_vec@.len()
            && a.section_vec@[j].connections@.len() <= k < c.section_vec@[j].connections@.len()
        implies recorded_conn(
        base,
        cs,
        mg,
        j as usize,
        #[trigger] c.section_vec@[j].connections@[k],
    ) by {
        if k < b.section_vec@[j].connections@.len() {
            assert(c.section_vec@[j].connections@[k] == b.section_vec@[j].connections@[k]);
        }
    }
}

/// Recorded entries can be read against any map with the same grid, rooms,
/// corridors and section ids.
pub proof fn lemma_recorded_rebase(
    b1: CellMatrix,
    b2: CellMatrix,
    pre: CellMatrix,
    post: CellMatrix,
    cs: (u8, u8),
    mg: (u8, u8),
)
    requires
        b1.dims_ok(),
        b1.sections_valid(),
        b2.cell_vector@ == b1.cell_vector@,
        b2.width == b1.width,
        b2.height == b1.height,
        b2.room_vec@ == b1.room_vec@,
        b2.corridor_vec@ == b1.corridor_vec@,
        b2.section_vec@.len() == b1.section_vec@.len(),
        forall|s: int|
            0 <= s < b1.section_vec@.len() ==> (#[trigger] b2.section_vec@[s]).id
                == b1.section_vec@[s].id,
        new_conns_recorded(b1, pre, post, cs, mg),
    ensures
        new_conns_recorded(b2, pre, post, cs, mg),
{
    assert forall|j: int, k: int|
        0 <= j < post.section_vec@.len() && j < pre.section_vec@.len()
            && pre.section_vec@[j].connections@.len() <= k
            < post.section_vec@[j].connections@.len() implies recorded_conn(
        b2,
        cs,
        mg,
        j as usize,
        #[trigger] post.section_vec@[j].connections@[k],
    ) by {
        lemma_recorded_same(b1, b2, cs, mg, j as usize, post.section_vec@[j].connections@[k]);
    }
}

/// The number of sections not yet carrying `id`; the propagation phase
/// only ever lowers it.
pub open spec fn count_not_id(s: Seq<Section>, id: usize) -> nat
    decreases s.len(),
{
    if s.len() == 0 {
        0
    } else {
        count_not_id(s.drop_last(), id) + (if s.last().id != id {
            1nat
        } else {
            0nat
        })
    }
}

/// Relabeling only toward `id` never raises the count.
pub proof fn lemma_count_not_id_le(s1: Seq<Section>, s2: Seq<Section>, id: usize)
    requires
        s1.len() == s2.len(),
        forall|j: int| 0 <= j < s2.len() && (#[trigger] s2[j]).id != id ==> s1[j].id != id,
    ensures
        count_not_id(s2, id) <= count_not_id(s1, id),
    decreases s1.len(),
{
    if s1.len() > 0 {
        lemma_count_not_id_le(s1.drop_last(), s2.drop_last(), id);
    }
}

/// Relabeling exactly one section to `id` lowers the count by one.
pub proof fn lemma_count_not_id_update(s1: Seq<Section>, s2: Seq<Section>, id: usize, w: int)
    requires
        s1.len() == s2.len(),
        forall|j: int| 0 <= j < s1.len() && j != w ==> (#[trigger] s2[j]).id == s1[j].id,
        0 <= w < s1.len(),
        s1[w].id != id,
        s2[w].id == id,
    ensures
        count_not_id(s2, id) == count_not_id(s1, id) - 1,
    decreases s1.len(),
{
    if w == s1.len() - 1 {
        assert forall|j: int|
            0 <= j < s1.drop_last().len() implies (#[trigger] s2.drop_last()[j]).id
            == s1.drop_last()[j].id by {
            assert(s2[j].id == s1[j].id);
        }
        lemma_count_not_id_same(s1.drop_last(), s2.drop_last(), id);
    } else {
        lemma_count_not_id_update(s1.drop_last(), s2.drop_last(), id, w);
    }
}

/// Sections with pointwise equal ids count the same.
pub proof fn lemma_count_not_id_same(s1: Seq<Section>, s2: Seq<Section>, id: usize)
    requires
        s1.len() == s2.len(),
        forall|j: int| 0 <= j < s1.len() ==> (#[trigger] s2[j]).id == s1[j].id,
    ensures
        count_not_id(s2, id) == count_not_id(s1, id),
    decreases s1.len(),
{
    if s1.len() > 0 {
        lemma_count_not_id_same(s1.drop_last(), s2.drop_last(), id);
    }
}

/// At most every section lacks the id.
pub proof fn lemma_count_not_id_bound(s: Seq<Section>, id: usize)
    ensures
        count_not_id(s, id) <= s.len(),
    decreases s.len(),
{
    if s.len() > 0 {
        lemma_count_not_id_bound(s.drop_last(), id);
    }
}

/// What one propagation step may do to the map: open rock cells inside
/// recorded rectangles into `Connection` cells, and relabel sections
/// toward `id`; nothing else moves.
pub open spec fn phase2_step(
    pre: CellMatrix,
    post: CellMatrix,
    cs: (u8, u8),
    mg: (u8, u8),
    id: usize,
) -> bool {
    &&& post.width == pre.width
    &&& post.height == pre.height
    &&& post.room_vec == pre.room_vec
    &&& post.corridor_vec == pre.corridor_vec
    &&& post.corridor_tree == pre.corridor_tree
    &&& post.section_vec@.len() == pre.section_vec@.len()
    &&& forall|j: int|
        0 <= j < pre.section_vec@.len() ==> (#[trigger] post.section_vec@[j]).connections
            == pre.section_vec@[j].connections
    &&& forall|j: int|
        0 <= j < pre.section_vec@.len() ==> ((#[trigger] post.section_vec@[j]).id == id
            || post.section_vec@[j].id == pre.section_vec@[j].id)
    &&& forall|j: int|
        0 <= j < pre.section_vec@.len() && (#[trigger] pre.section_vec@[j]).id == id
            ==> post.section_vec@[j].id == id
    &&& forall|a: int, b: int|
        #[trigger] post.cell_at(a, b) == pre.cell_at(a, b) || (pre.cell_at(a, b) is Rock
            && post.cell_at(a, b) is Connection && in_some_conn_rect(pre, cs, mg, a, b))
}

/// Propagation steps compose.
pub proof fn lemma_phase2_trans(
    pre: CellMatrix,
    mid: CellMatrix,
    post: CellMatrix,
    cs: (u8, u8),
    mg: (u8, u8),
    id: usize,
)
    requires
        phase2_step(pre, mid, cs, mg, id),
        phase2_step(mid, post, cs, mg, id),
    ensures
        phase2_step(pre, post, cs, mg, id),
{
    assert forall|a: int, b: int|
        #[trigger] post.cell_at(a, b) == pre.cell_at(a, b) || (pre.cell_at(a, b) is Rock
            && post.cell_at(a, b) is Connection && in_some_conn_rect(pre, cs, mg, a, b)) by {
        if post.cell_at(a, b) != mid.cell_at(a, b) {
            assert(mid.cell_at(a, b) is Rock);
            assert(mid.cell_at(a, b) == pre.cell_at(a, b));
            let (j, k) = choose|j: int, k: int|
                #![trigger mid.section_vec@[j].connections@[k]]
                0 <= j < mid.section_vec@.len() && 0 <= k
                    < mid.section_vec@[j].connections@.len() && {
                    let c = mid.section_vec@[j].connections@[k];
                    c.x <= a < c.x + conn_rect_w(c, cs, mg) && c.y <= b < c.y + conn_rect_h(
                        c,
                        cs,
                        mg,
                    )
                };
            assert(mid.section_vec@[j].connections == pre.section_vec@[j].connections);
            assert(pre.section_vec@[j].connections@[k] == mid.section_vec@[j].connections@[k]);
        }
    }
}

/// The entry the left section of a horizontal gap receives: east toward
/// the right section.
pub open spec fn h_east_entry(m: CellMatrix, cs: (u8, u8), mg: (u8, u8), a: int, b: int) -> Connection {
    Connection {
        x: a as u16,
        y: b as u16,
        id: h_right(m, mg, a, b).unwrap(),
        score: h_gap_score(m, cs, mg, a, b) as u32,
        direction: Direction::E,
    }
}

/// The entry the right section of a horizontal gap receives.
pub open spec fn h_west_entry(m: CellMatrix, cs: (u8, u8), mg: (u8, u8), a: int, b: int) -> Connection {
    Connection {
        x: a as u16,
        y: b as u16,
        id: h_left(m, cs, a, b).unwrap(),
        score: h_gap_score(m, cs, mg, a, b) as u32,
        direction: Direction::W,
    }
}

/// The entry the upper section of a vertical gap receives.
pub open spec fn v_south_entry(m: CellMatrix, cs: (u8, u8), mg: (u8, u8), a: int, b: int) -> Connection {
    Connection {
        x: a as u16,
        y: b as u16,
        id: v_bottom(m, mg, a, b).unwrap(),
        score: v_gap_score(m, cs, mg, a, b) as u32,
        direction: Direction::S,
    }
}

/// The entry the lower section of a vertical gap receives.
pub open spec fn v_north_entry(m: CellMatrix, cs: (u8, u8), mg: (u8, u8), a: int, b: int) -> Connection {
    Connection {
        x: a as u16,
        y: b as u16,
        id: v_top(m, cs, a, b).unwrap(),
        score: v_gap_score(m, cs, mg, a, b) as u32,
        direction: Direction::N,
    }
}

/// If `base` has a valid horizontal gap at `(a, b)`, then `m` holds the
/// mutual pair of entries for it.
pub open spec fn h_gap_recorded_in(
    base: CellMatrix,
    m: CellMatrix,
    cs: (u8, u8),
    mg: (u8, u8),
    a: int,
    b: int,
) -> bool {
    h_gap_at(base, cs, mg, a, b) ==> {
        &&& m.section_vec@[h_left(base, cs, a, b).unwrap() as int].connections@.contains(
            h_east_entry(base, cs, mg, a, b),
        )
        &&& m.section_vec@[h_right(base, mg, a, b).unwrap() as int].connections@.contains(
            h_west_entry(base, cs, mg, a, b),
        )
    }
}

/// If `base` has a valid vertical gap at `(a, b)`, then `m` holds the
/// mutual pair of entries for it.
pub open spec fn v_gap_recorded_in(
    base: CellMatrix,
    m: CellMatrix,
    cs: (u8, u8),
    mg: (u8, u8),
    a: int,
    b: int,
) -> bool {
    v_gap_at(base, cs, mg, a, b) ==> {
        &&& m.section_vec@[v_top(base, cs, a, b).unwrap() as int].connections@.contains(
            v_south_entry(base, cs, mg, a, b),
        )
        &&& m.section_vec@[v_bottom(base, mg, a, b).unwrap() as int].connections@.contains(
            v_north_entry(base, cs, mg, a, b),
        )
    }
}

/// Gap validity, its two sides and its score read the same on any map with
/// the same grid, rooms, corridors and section ids.
pub proof fn lemma_h_gap_same(
    m1: CellMatrix,
    m2: CellMatrix,
    cs: (u8, u8),
    mg: (u8, u8),
    a: int,
    b: int,
)
    requires
        m1.dims_ok(),
        m1.sections_valid(),
        m2.cell_vector@ == m1.cell_vector@,
        m2.width == m1.width,
        m2.height == m1.height,
        m2.room_vec@ == m1.room_vec@,
        m2.corridor_vec@ == m1.corridor_vec@,
        m2.section_vec@.len() == m1.section_vec@.len(),
        forall|s: int|
            0 <= s < m1.section_vec@.len() ==> (#[trigger] m2.section_vec@[s]).id
                == m1.section_vec@[s].id,
    ensures
        h_gap_at(m2, cs, mg, a, b) == h_gap_at(m1, cs, mg, a, b),
        h_left(m2, cs, a, b) == h_left(m1, cs, a, b),
        h_right(m2, mg, a, b) == h_right(m1, mg, a, b),
        h_gap_score(m2, cs, mg, a, b) == h_gap_score(m1, cs, mg, a, b),
{
    crate::labyrinth_generator::lemma_same_cells(m1, m2);
    crate::labyrinth_generator::lemma_sections_valid_same(m1, m2);
    assert(m2.dims_ok());
    assert forall|aa: int, bb: int|
        #![trigger m2.spec_section_at(aa, bb)]
        #![trigger m1.spec_section_at(aa, bb)]
        true implies m2.spec_section_at(aa, bb) == m1.spec_section_at(aa, bb) by {
        assert(m2.cell_at(aa, bb) == m1.cell_at(aa, bb));
    }
    assert(spec_score_at(m2, cs, a - cs.0, b, false) == spec_score_at(m1, cs, a - cs.0, b, false))
        by {
        assert(m2.cell_at(a - cs.0, b) == m1.cell_at(a - cs.0, b));
    }
    assert(spec_score_at(m2, cs, a + mg.0, b, false) == spec_score_at(m1, cs, a + mg.0, b, false))
        by {
        assert(m2.cell_at(a + mg.0, b) == m1.cell_at(a + mg.0, b));
    }
    if h_gap_at(m1, cs, mg, a, b) {
        let li = h_left(m1, cs, a, b).unwrap() as int;
        let ri = h_right(m1, mg, a, b).unwrap() as int;
        lemma_owned_in_bounds(m1, a - cs.0, b);
        crate::cell_matrix::lemma_grid_index(m1.width as int, m1.height as int, a - cs.0, b);
        assert(m1.tag_valid(m1.cell_vector@[b * m1.width as int + (a - cs.0)]));
        lemma_owned_in_bounds(m1, a + mg.0, b);
        crate::cell_matrix::lemma_grid_index(m1.width as int, m1.height as int, a + mg.0, b);
        assert(m1.tag_valid(m1.cell_vector@[b * m1.width as int + (a + mg.0)]));
        lemma_probe_same(m1, m2, a - cs.0, b, cs, li);
        lemma_probe_same(m1, m2, a + mg.0, b, cs, ri);
    }
    if h_gap_at(m2, cs, mg, a, b) {
        let li = h_left(m2, cs, a, b).unwrap() as int;
        let ri = h_right(m2, mg, a, b).unwrap() as int;
        lemma_owned_in_bounds(m2, a - cs.0, b);
        crate::cell_matrix::lemma_grid_index(m2.width as int, m2.height as int, a - cs.0, b);
        assert(m2.tag_valid(m2.cell_vector@[b * m2.width as int + (a - cs.0)]));
        lemma_owned_in_bounds(m2, a + mg.0, b);
        crate::cell_matrix::lemma_grid_index(m2.width as int, m2.height as int, a + mg.0, b);
        assert(m2.tag_valid(m2.cell_vector@[b * m2.width as int + (a + mg.0)]));
        lemma_probe_same(m2, m1, a - cs.0, b, cs, li);
        lemma_probe_same(m2, m1, a + mg.0, b, cs, ri);
    }
}

/// The vertical counterpart of the gap-transfer lemma.
pub proof fn lemma_v_gap_same(
    m1: CellMatrix,
    m2: CellMatrix,
    cs: (u8, u8),
    mg: (u8, u8),
    a: int,
    b: int,
)
    requires
        m1.dims_ok(),
        m1.sections_valid(),
        m2.cell_vector@ == m1.cell_vector@,
        m2.width == m1.width,
        m2.height == m1.height,
        m2.room_vec@ == m1.room_vec@,
        m2.corridor_vec@ == m1.corridor_vec@,
        m2.section_vec@.len() == m1.section_vec@.len(),
        forall|s: int|
            0 <= s < m1.section_vec@.len() ==> (#[trigger] m2.section_vec@[s]).id
                == m1.section_vec@[s].id,
    ensures
        v_gap_at(m2, cs, mg, a, b) == v_gap_at(m1, cs, mg, a, b),
        v_top(m2, cs, a, b) == v_top(m1, cs, a, b),
        v_bottom(m2, mg, a, b) == v_bottom(m1, mg, a, b),
        v_gap_score(m2, cs, mg, a, b) == v_gap_score(m1, cs, mg, a, b),
{
    crate::labyrinth_generator::lemma_same_cells(m1, m2);
    crate::labyrinth_generator::lemma_sections_valid_same(m1, m2);
    assert(m2.dims_ok());
    assert forall|aa: int, bb: int|
        #![trigger m2.spec_section_at(aa, bb)]
        #![trigger m1.spec_section_at(aa, bb)]
        true implies m2.spec_section_at(aa, bb) == m1.spec_section_at(aa, bb) by {
        assert(m2.cell_at(aa, bb) == m1.cell_at(aa, bb));
    }
    assert(spec_score_at(m2, cs, a, b - cs.1, true) == spec_score_at(m1, cs, a, b - cs.1, true))
        by {
        assert(m2.cell_at(a, b - cs.1) == m1.cell_at(a, b - cs.1));
    }
    assert(spec_score_at(m2, cs, a, b + mg.1, true) == spec_score_at(m1, cs, a, b + mg.1, true))
        by {
        assert(m2.cell_at(a, b + mg.1) == m1.cell_at(a, b + mg.1));
    }
    if v_gap_at(m1, cs, mg, a, b) {
        let ti = v_top(m1, cs, a, b).unwrap() as int;
        let bi = v_bottom(m1, mg, a, b).unwrap() as int;
        lemma_owned_in_bounds(m1, a, b - cs.1);
        crate::cell_matrix::lemma_grid_index(m1.width as int, m1.height as int, a, b - cs.1);
        assert(m1.tag_valid(m1.cell_vector@[(b - cs.1) * m1.width as int + a]));
        lemma_owned_in_bounds(m1, a, b + mg.1);
        crate::cell_matrix::lemma_grid_index(m1.width as int, m1.height as int, a, b + mg.1);
        assert(m1.tag_valid(m1.cell_vector@[(b + mg.1) * m1.width as int + a]));
        lemma_probe_same(m1, m2, a, b - cs.1, cs, ti);
        lemma_probe_same(m1, m2, a, b + mg.1, cs, bi);
    }
    if v_gap_at(m2, cs, mg, a, b) {
        let ti = v_top(m2, cs, a, b).unwrap() as int;
        let bi = v_bottom(m2, mg, a, b).unwrap() as int;
        lemma_owned_in_bounds(m2, a, b - cs.1);
        crate::cell_matrix::lemma_grid_index(m2.width as int, m2.height as int, a, b - cs.1);
        assert(m2.tag_valid(m2.cell_vector@[(b - cs.1) * m2.width as int + a]));
        lemma_owned_in_bounds(m2, a, b + mg.1);
        crate::cell_matrix::lemma_grid_index(m2.width as int, m2.height as int, a, b + mg.1);
        assert(m2.tag_valid(m2.cell_vector@[(b + mg.1) * m2.width as int + a]));
        lemma_probe_same(m2, m1, a, b - cs.1, cs, ti);
        lemma_probe_same(m2, m1, a, b + mg.1, cs, bi);
    }
}

/// A held entry survives any extension of the connection lists.
pub proof fn lemma_contains_preserved(pre: CellMatrix, post: CellMatrix, j: int, e: Connection)
    requires
        conns_extended(pre, post),
        0 <= j < pre.section_vec@.len(),
        pre.section_vec@[j].connections@.contains(e),
    ensures
        post.section_vec@[j].connections@.contains(e),
{
    let t = choose|t: int|
        0 <= t < pre.section_vec@[j].connections@.len() && pre.section_vec@[j].connections@[t]
            == e;
    assert(post.section_vec@[j].connections@[t] == e);
}

/// A recorded horizontal gap stays recorded when connection lists only
/// grow.
pub proof fn lemma_h_recorded_mono(
    base: CellMatrix,
    m1: CellMatrix,
    m2: CellMatrix,
    cs: (u8, u8),
    mg: (u8, u8),
    a: int,
    b: int,
)
    requires
        base.dims_ok(),
        base.sections_valid(),
        base.section_vec@.len() == m1.section_vec@.len(),
        conns_extended(m1, m2),
        h_gap_recorded_in(base, m1, cs, mg, a, b),
    ensures
        h_gap_recorded_in(base, m2, cs, mg, a, b),
{
    if h_gap_at(base, cs, mg, a, b) {
        lemma_owned_in_bounds(base, a - cs.0, b);
        crate::cell_matrix::lemma_grid_index(base.width as int, base.height as int, a - cs.0, b);
        assert(base.tag_valid(base.cell_vector@[b * base.width as int + (a - cs.0)]));
        lemma_owned_in_bounds(base, a + mg.0, b);
        crate::cell_matrix::lemma_grid_index(base.width as int, base.height as int, a + mg.0, b);
        assert(base.tag_valid(base.cell_vector@[b * base.width as int + (a + mg.0)]));
        lemma_contains_preserved(
            m1,
            m2,
            h_left(base, cs, a, b).unwrap() as int,
            h_east_entry(base, cs, mg, a, b),
        );
        lemma_contains_preserved(
            m1,
            m2,
            h_right(base, mg, a, b).unwrap() as int,
            h_west_entry(base, cs, mg, a, b),
        );
    }
}

/// A recorded vertical gap stays recorded when connection lists only grow.
pub proof fn lemma_v_recorded_mono(
    base: CellMatrix,
    m1: CellMatrix,
    m2: CellMatrix,
    cs: (u8, u8),
    mg: (u8, u8),
    a: int,
    b: int,
)
    requires
        base.dims_ok(),
        base.sections_valid(),
        base.section_vec@.len() == m1.section_vec@.len(),
        conns_extended(m1, m2),
        v_gap_recorded_in(base, m1, cs, mg, a, b),
    ensures
        v_gap_recorded_in(base, m2, cs, mg, a, b),
{
    if v_gap_at(base, cs, mg, a, b) {
        lemma_owned_in_bounds(base, a, b - cs.1);
        crate::cell_matrix::lemma_grid_index(base.width as int, base.height as int, a, b - cs.1);
        assert(base.tag_valid(base.cell_vector@[(b - cs.1) * base.width as int + a]));
        lemma_owned_in_bounds(base, a, b + mg.1);
        crate::cell_matrix::lemma_grid_index(base.width as int, base.height as int, a, b + mg.1);
        assert(base.tag_valid(base.cell_vector@[(b + mg.1) * base.width as int + a]));
        lemma_contains_preserved(
            m1,
            m2,
            v_top(base, cs, a, b).unwrap() as int,
            v_south_entry(base, cs, mg, a, b),
        );
        lemma_contains_preserved(
            m1,
            m2,
            v_bottom(base, mg, a, b).unwrap() as int,
            v_north_entry(base, cs, mg, a, b),
        );
    }
}

/// Every section still carries its own index as id: the state sections are
/// born in, before any propagation.
pub open spec fn ids_identity(m: CellMatrix) -> bool {
    forall|j: int| 0 <= j < m.section_vec@.len() ==> (#[trigger] m.section_vec@[j]).id == j
}

/// Every candidate of the root section already leads to a section carrying
/// the root's id.
pub open spec fn root_neighbors_merged(m: CellMatrix) -> bool {
    m.section_vec@.len() > 0 ==> forall|k: int|
        0 <= k < m.section_vec@[0].connections@.len() ==> m.section_vec@[(
        #[trigger] m.section_vec@[0].connections@[k]).id as int].id == m.section_vec@[0].id
}

/// What one full propagation pass does, from `pre` to `post`: it is a
/// propagation step toward the root's id; it changes nothing when the
/// root's neighbors are already merged; and from freshly numbered sections
/// it merges every neighbor of the root.
pub open spec fn propagation_run(
    pre: CellMatrix,
    post: CellMatrix,
    cs: (u8, u8),
    mg: (u8, u8),
) -> bool {
    &&& (pre.section_vec@.len() == 0 ==> post == pre)
    &&& (pre.section_vec@.len() > 0 ==> phase2_step(pre, post, cs, mg, pre.section_vec@[0].id))
    &&& (root_neighbors_merged(pre) ==> post == pre)
    &&& (ids_identity(pre) && pre.section_vec@.len() > 0 ==> forall|k: int|
        0 <= k < pre.section_vec@[0].connections@.len() ==> post.section_vec@[(
        #[trigger] pre.section_vec@[0].connections@[k]).id as int].id == pre.section_vec@[0].id)
}

/// The propagation phase is idempotent: against the same discovered
/// connections, a second pass after a first one that started from freshly
/// numbered sections changes nothing at all — the same id assignment, the
/// same isolated set, and the same grid.
pub proof fn lemma_propagation_idempotent(
    pre: CellMatrix,
    mid: CellMatrix,
    post: CellMatrix,
    cs: (u8, u8),
    mg: (u8, u8),
)
    requires
        ids_identity(pre),
        propagation_run(pre, mid, cs, mg),
        propagation_run(mid, post, cs, mg),
    ensures
        post == mid,
{
    if pre.section_vec@.len() == 0 {
        assert(mid == pre);
    } else {
        let root = pre.section_vec@[0].id;
        assert(root == 0);
        assert(mid.section_vec@[0].id == root);
        // The first pass merged every neighbor of the root and kept the
        // root's candidate list, so the second pass finds nothing to do.
        assert forall|k: int| 0 <= k < mid.section_vec@[0].connections@.len() implies
            mid.section_vec@[(#[trigger] mid.section_vec@[0].connections@[k]).id as int].id
            == mid.section_vec@[0].id by {
            assert(mid.section_vec@[0].connections == pre.section_vec@[0].connections);
            assert(mid.section_vec@[0].connections@[k] == pre.section_vec@[0].connections@[k]);
            assert(mid.section_vec@[(pre.section_vec@[0].connections@[k]).id as int].id == root);
        }
        assert(root_neighbors_merged(mid));
    }
}

/// The passed candidate list is made of entries stored in the map's
/// sections.
pub open spec fn conns_from(m: CellMatrix, list: Seq<Connection>) -> bool {
    forall|k: int|
        0 <= k < list.len() ==> exists|j: int|
            #![auto]
            0 <= j < m.section_vec@.len() && m.section_vec@[j].connections@.contains(
                #[trigger] list[k],
            )
}

/// No `Connection` cell lies in or around the footprint at `(nx, ny)`:
/// the footprint expanded by one cell on every side is free of them.
pub open spec fn no_connection_around(m: CellMatrix, nx: int, ny: int, cs: (u8, u8)) -> bool {
    forall|a: int, b: int|
        nx - 1 <= a < nx + cs.0 + 1 && ny - 1 <= b < ny + cs.1 + 1 ==> !((#[trigger] m.cell_at(
            a,
            b,
        )) is Connection)
}

/// What pruning may do to the map: write `Removed` cells, and detach
/// childless corridor-tree leaves that border no `Connection` cell;
/// nothing else moves.
pub open spec fn phase3_step(pre: CellMatrix, post: CellMatrix, cs: (u8, u8)) -> bool {
    &&& post.width == pre.width
    &&& post.height == pre.height
    &&& post.room_vec == pre.room_vec
    &&& post.corridor_vec == pre.corridor_vec
    &&& post.section_vec == pre.section_vec
    &&& post.corridor_tree.nodes@.len() == pre.corridor_tree.nodes@.len()
    &&& post.corridor_tree.roots@ == pre.corridor_tree.roots@
    &&& forall|i: int|
        0 <= i < pre.corridor_tree.nodes@.len()
            ==> (#[trigger] post.corridor_tree.nodes@[i]).x == pre.corridor_tree.nodes@[i].x
            && post.corridor_tree.nodes@[i].y == pre.corridor_tree.nodes@[i].y
            && post.corridor_tree.nodes@[i].parent == pre.corridor_tree.nodes@[i].parent
    &&& forall|i: int, v: usize|
        #![trigger post.corridor_tree.nodes@[i].children@.contains(v)]
        0 <= i < pre.corridor_tree.nodes@.len() && post.corridor_tree.nodes@[i].children@.contains(
            v,
        ) ==> pre.corridor_tree.nodes@[i].children@.contains(v)
    &&& forall|i: int, v: usize|
        #![trigger pre.corridor_tree.nodes@[i].children@.contains(v)]
        0 <= i < pre.corridor_tree.nodes@.len() && pre.corridor_tree.nodes@[i].children@.contains(
            v,
        ) && !post.corridor_tree.nodes@[i].children@.contains(v) ==> {
            &&& v < post.corridor_tree.nodes@.len()
            &&& post.corridor_tree.nodes@[v as int].children@.len() == 0
            &&& no_connection_around(
                post,
                post.corridor_tree.nodes@[v as int].x as int,
                post.corridor_tree.nodes@[v as int].y as int,
                cs,
            )
        }
    &&& forall|a: int, b: int|
        #[trigger] post.cell_at(a, b) == pre.cell_at(a, b) || (post.cell_at(a, b) is Removed && (
        pre.cell_at(a, b) is Corridor || pre.cell_at(a, b) is Removed))
}

/// Pruning steps compose.
pub proof fn lemma_phase3_trans(pre: CellMatrix, mid: CellMatrix, post: CellMatrix, cs: (u8, u8))
    requires
        phase3_step(pre, mid, cs),
        phase3_step(mid, post, cs),
    ensures
        phase3_step(pre, post, cs),
{
    assert forall|a: int, b: int|
        #[trigger] post.cell_at(a, b) == pre.cell_at(a, b) || (post.cell_at(a, b) is Removed && (
        pre.cell_at(a, b) is Corridor || pre.cell_at(a, b) is Removed)) by {
        if post.cell_at(a, b) != mid.cell_at(a, b) {
            assert(post.cell_at(a, b) is Removed);
            if mid.cell_at(a, b) != pre.cell_at(a, b) {
                assert(pre.cell_at(a, b) is Corridor || pre.cell_at(a, b) is Removed);
            } else {
                assert(mid.cell_at(a, b) is Corridor || mid.cell_at(a, b) is Removed);
            }
        }
    }
    let n = pre.corridor_tree.nodes@.len() as int;
    assert forall|i: int, v: usize|
        #![trigger pre.corridor_tree.nodes@[i].children@.contains(v)]
        0 <= i < n && pre.corridor_tree.nodes@[i].children@.contains(v)
            && !post.corridor_tree.nodes@[i].children@.contains(v) implies {
        &&& v < post.corridor_tree.nodes@.len()
        &&& post.corridor_tree.nodes@[v as int].children@.len() == 0
        &&& no_connection_around(
            post,
            post.corridor_tree.nodes@[v as int].x as int,
            post.corridor_tree.nodes@[v as int].y as int,
            cs,
        )
    } by {
        if mid.corridor_tree.nodes@[i].children@.contains(v) {
            // detached between mid and post
            assert(post.corridor_tree.nodes@[v as int].children@.len() == 0);
        } else {
            // detached between pre and mid: it stayed a leaf, and pruning
            // writes no Connection cell afterward
            assert(mid.corridor_tree.nodes@[v as int].children@.len() == 0);
            if post.corridor_tree.nodes@[v as int].children@.len() != 0 {
                let w = post.corridor_tree.nodes@[v as int].children@[0];
                assert(post.corridor_tree.nodes@[v as int].children@.contains(w));
                assert(mid.corridor_tree.nodes@[v as int].children@.contains(w));
            }
            let nx = mid.corridor_tree.nodes@[v as int].x as int;
            let ny = mid.corridor_tree.nodes@[v as int].y as int;
            assert forall|a: int, b: int|
                nx - 1 <= a < nx + cs.0 + 1 && ny - 1 <= b < ny + cs.1 + 1 implies !((
            #[trigger] post.cell_at(a, b)) is Connection) by {
                assert(!(mid.cell_at(a, b) is Connection));
            }
        }
    }
}

/// No disposable leaf survives in the subtree rooted at `r`, entered with
/// a running branch depth of `c0`: every node of that subtree that is
/// childless, shallower than the prune threshold, surrounded by no
/// `Connection` cell and still backed by a parent has been detached from
/// that parent's child list.
pub open spec fn no_disposable_in(m: CellMatrix, cs: (u8, u8), pl: u32, r: int, c0: int) -> bool {
    forall|i: int|
        #![trigger crate::corridor_tree::in_subtree(m.corridor_tree, r, i)]
        (0 <= i < m.corridor_tree.nodes@.len() && crate::corridor_tree::in_subtree(
            m.corridor_tree,
            r,
            i,
        ) && c0 + crate::corridor_tree::rel_depth(m.corridor_tree, r, i) < pl
            && m.corridor_tree.nodes@[i].children@.len() == 0 && m.corridor_tree.nodes@[i].parent
            is Some && no_connection_around(
            m,
            m.corridor_tree.nodes@[i].x as int,
            m.corridor_tree.nodes@[i].y as int,
            cs,
        )) ==> !m.corridor_tree.nodes@[m.corridor_tree.nodes@[i].parent.unwrap() as int].children@.contains(
            i as usize,
        )
}

/// The border edge of the `(nx, ny)` footprint facing away from the parent
/// at `(px, py)` is erased to `Removed`.
pub open spec fn away_edge_removed(
    m: CellMatrix,
    nx: int,
    ny: int,
    px: int,
    py: int,
    cs: (u8, u8),
) -> bool {
    if px < nx {
        forall|b: int| ny <= b < ny + cs.1 ==> (#[trigger] m.cell_at(nx + cs.0 - 1, b)) is Removed
    } else if px > nx {
        forall|b: int| ny <= b < ny + cs.1 ==> (#[trigger] m.cell_at(nx, b)) is Removed
    } else if py < ny {
        forall|a: int| nx <= a < nx + cs.0 ==> (#[trigger] m.cell_at(a, ny + cs.1 - 1)) is Removed
    } else {
        forall|a: int| nx <= a < nx + cs.0 ==> (#[trigger] m.cell_at(a, ny)) is Removed
    }
}

/// Freedom from disposable leaves survives later pruning elsewhere: parent
/// links, coordinates and the subtree's own child lists are untouched,
/// child lists only shrink, and the set of `Connection` cells is fixed.
pub proof fn lemma_no_disposable_stable(
    m1: CellMatrix,
    m2: CellMatrix,
    cs: (u8, u8),
    pl: u32,
    r: int,
    c0: int,
)
    requires
        no_disposable_in(m1, cs, pl, r, c0),
        m1.corridor_tree.wf(),
        m2.corridor_tree.nodes@.len() == m1.corridor_tree.nodes@.len(),
        forall|j: int|
            0 <= j < m1.corridor_tree.nodes@.len() ==> (
            #[trigger] m2.corridor_tree.nodes@[j]).parent == m1.corridor_tree.nodes@[j].parent
                && m2.corridor_tree.nodes@[j].x == m1.corridor_tree.nodes@[j].x
                && m2.corridor_tree.nodes@[j].y == m1.corridor_tree.nodes@[j].y,
        forall|j: int|
            0 <= j < m1.corridor_tree.nodes@.len() && crate::corridor_tree::in_subtree(
                m1.corridor_tree,
                r,
                j,
            ) ==> #[trigger] m2.corridor_tree.nodes@[j].children == m1.corridor_tree.nodes@[j].children,
        forall|j: int, v: usize|
            #![trigger m2.corridor_tree.nodes@[j].children@.contains(v)]
            0 <= j < m1.corridor_tree.nodes@.len() && m2.corridor_tree.nodes@[j].children@.contains(
                v,
            ) ==> m1.corridor_tree.nodes@[j].children@.contains(v),
        forall|a: int, b: int|
            ((#[trigger] m2.cell_at(a, b)) is Connection) == (m1.cell_at(a, b) is Connection),
    ensures
        no_disposable_in(m2, cs, pl, r, c0),
{
    let t1 = m1.corridor_tree;
    let t2 = m2.corridor_tree;
    assert forall|i: int|
        #![trigger crate::corridor_tree::in_subtree(t2, r, i)]
        (0 <= i < t2.nodes@.len() && crate::corridor_tree::in_subtree(t2, r, i) && c0
            + crate::corridor_tree::rel_depth(t2, r, i) < pl && t2.nodes@[i].children@.len() == 0
            && t2.nodes@[i].parent is Some && no_connection_around(
            m2,
            t2.nodes@[i].x as int,
            t2.nodes@[i].y as int,
            cs,
        )) implies !t2.nodes@[t2.nodes@[i].parent.unwrap() as int].children@.contains(
        i as usize,
    ) by {
        crate::corridor_tree::lemma_chain_same(t1, t2, r, i);
        assert(crate::corridor_tree::in_subtree(t1, r, i));
        assert(t1.nodes@[i].children == t2.nodes@[i].children);
        assert(no_connection_around(
            m1,
            t1.nodes@[i].x as int,
            t1.nodes@[i].y as int,
            cs,
        )) by {
            assert forall|a: int, b: int|
                t1.nodes@[i].x - 1 <= a < t1.nodes@[i].x + cs.0 + 1 && t1.nodes@[i].y - 1 <= b
                    < t1.nodes@[i].y + cs.1 + 1 implies !((#[trigger] m1.cell_at(a, b))
                is Connection) by {
                assert((m2.cell_at(a, b) is Connection) == (m1.cell_at(a, b) is Connection));
                assert(!(m2.cell_at(a, b) is Connection));
            }
        }
        assert(t1.node_wf(i));
        let q = t1.nodes@[i].parent.unwrap() as int;
        assert(0 <= q < t1.nodes@.len());
        assert(!t1.nodes@[q].children@.contains(i as usize));
        if t2.nodes@[q].children@.contains(i as usize) {
            assert(t1.nodes@[q].children@.contains(i as usize));
        }
    }
}

/// A pruning step never creates or destroys a `Connection` cell.
proof fn lemma_phase3_conn_same(m1: CellMatrix, m2: CellMatrix, cs: (u8, u8))
    requires
        phase3_step(m1, m2, cs),
    ensures
        forall|a: int, b: int|
            ((#[trigger] m2.cell_at(a, b)) is Connection) == (m1.cell_at(a, b) is Connection),
{
    assert forall|a: int, b: int|
        ((#[trigger] m2.cell_at(a, b)) is Connection) == (m1.cell_at(a, b) is Connection) by {
        if m2.cell_at(a, b) != m1.cell_at(a, b) {
            assert(m2.cell_at(a, b) is Removed && (m1.cell_at(a, b) is Corridor || m1.cell_at(
                a,
                b,
            ) is Removed));
        }
    }
}

/// A pruning step that rewires only the subtree of `sub`, and possibly the
/// child list of `sub`'s parent, keeps a subtree that meets neither free
/// of disposable leaves.
proof fn lemma_no_disposable_other(
    m1: CellMatrix,
    m2: CellMatrix,
    cs: (u8, u8),
    pl: u32,
    r: int,
    c0: int,
    sub: int,
)
    requires
        no_disposable_in(m1, cs, pl, r, c0),
        m1.corridor_tree.wf(),
        phase3_step(m1, m2, cs),
        0 <= r < m1.corridor_tree.nodes@.len(),
        0 <= sub < m1.corridor_tree.nodes@.len(),
        forall|j: int|
            0 <= j < m1.corridor_tree.nodes@.len() && !crate::corridor_tree::in_subtree(
                m1.corridor_tree,
                sub,
                j,
            ) && (m1.corridor_tree.nodes@[sub].parent matches Some(pq) ==> pq as int != j)
                ==> #[trigger] m2.corridor_tree.nodes@[j].children
                == m1.corridor_tree.nodes@[j].children,
        forall|j: int|
            #![trigger crate::corridor_tree::in_subtree(m1.corridor_tree, r, j)]
            0 <= j < m1.corridor_tree.nodes@.len() && crate::corridor_tree::in_subtree(
                m1.corridor_tree,
                r,
                j,
            ) ==> !crate::corridor_tree::in_subtree(m1.corridor_tree, sub, j) && (
            m1.corridor_tree.nodes@[sub].parent matches Some(pq) ==> pq as int != j),
    ensures
        no_disposable_in(m2, cs, pl, r, c0),
{
    lemma_phase3_conn_same(m1, m2, cs);
    assert forall|j: int|
        0 <= j < m1.corridor_tree.nodes@.len() && crate::corridor_tree::in_subtree(
            m1.corridor_tree,
            r,
            j,
        ) implies #[trigger] m2.corridor_tree.nodes@[j].children
        == m1.corridor_tree.nodes@[j].children by {
        assert(!crate::corridor_tree::in_subtree(m1.corridor_tree, sub, j));
    }
    lemma_no_disposable_stable(m1, m2, cs, pl, r, c0);
}

/// Once a node's children are each free of disposable leaves and the
/// node's own check has run, no disposable leaf survives anywhere in its
/// subtree: a strict member descends through a child processed with a
/// depth of at most one more than the node's own, or hangs below ground
/// already detached when the walk began.
proof fn lemma_assemble_no_disposable(
    m_old: CellMatrix,
    m_fin: CellMatrix,
    cs: (u8, u8),
    pl: u32,
    idx: usize,
    count: usize,
    c_sub: int,
)
    requires
        m_old.corridor_tree.wf(),
        crate::corridor_tree::detached_closed(m_old.corridor_tree),
        idx < m_old.corridor_tree.nodes@.len(),
        c_sub == 0 || c_sub == count as int + 1,
        phase3_step(m_old, m_fin, cs),
        forall|kk: int|
            0 <= kk < m_old.corridor_tree.nodes@[idx as int].children@.len()
                ==> no_disposable_in(
                m_fin,
                cs,
                pl,
                (#[trigger] m_old.corridor_tree.nodes@[idx as int].children@[kk]) as int,
                c_sub,
            ),
        ({
            let t = m_fin.corridor_tree;
            &&& t.nodes@[idx as int].children@.len() == 0
            &&& count < pl
            &&& t.nodes@[idx as int].parent is Some
            &&& no_connection_around(
                m_fin,
                t.nodes@[idx as int].x as int,
                t.nodes@[idx as int].y as int,
                cs,
            )
        }) ==> !m_fin.corridor_tree.nodes@[m_fin.corridor_tree.nodes@[idx as int].parent.unwrap() as int].children@.contains(
            idx,
        ),
    ensures
        no_disposable_in(m_fin, cs, pl, idx as int, count as int),
{
    let t_old = m_old.corridor_tree;
    let t_fin = m_fin.corridor_tree;
    let children = t_old.nodes@[idx as int].children@;
    assert forall|i: int|
        #![trigger crate::corridor_tree::in_subtree(t_fin, idx as int, i)]
        (0 <= i < t_fin.nodes@.len() && crate::corridor_tree::in_subtree(t_fin, idx as int, i)
            && count + crate::corridor_tree::rel_depth(t_fin, idx as int, i) < pl
            && t_fin.nodes@[i].children@.len() == 0 && t_fin.nodes@[i].parent is Some
            && no_connection_around(
            m_fin,
            t_fin.nodes@[i].x as int,
            t_fin.nodes@[i].y as int,
            cs,
        )) implies !t_fin.nodes@[t_fin.nodes@[i].parent.unwrap() as int].children@.contains(
        i as usize,
    ) by {
        if i == idx as int {
            assert(crate::corridor_tree::rel_depth(t_fin, idx as int, idx as int) == 0);
        } else {
            crate::corridor_tree::lemma_subtree_child(t_fin, idx as int, i);
            let v = choose|v: int|
                {
                    &&& idx < v <= i
                    &&& (#[trigger] t_fin.nodes@[v].parent) matches Some(q) && q as int == idx
                    &&& crate::corridor_tree::in_subtree(t_fin, v, i)
                    &&& crate::corridor_tree::rel_depth(t_fin, idx as int, i)
                        == crate::corridor_tree::rel_depth(t_fin, v, i) + 1
                };
            assert(t_old.nodes@.len() == t_fin.nodes@.len());
            assert(t_old.nodes@[v].parent == t_fin.nodes@[v].parent);
            if children.contains(v as usize) {
                let kk = choose|kk: int| 0 <= kk < children.len() && children[kk] == v as usize;
                assert(vstd::std_specs::vec::spec_vec_len(&m_fin.corridor_tree.nodes)
                    == m_fin.corridor_tree.nodes@.len());
                assert(v <= usize::MAX as int);
                assert(children[kk] as int == v);
                assert(no_disposable_in(m_fin, cs, pl, v, c_sub));
                assert(c_sub + crate::corridor_tree::rel_depth(t_fin, v, i) < pl);
                assert(crate::corridor_tree::in_subtree(t_fin, v, i));
            } else {
                assert(t_old.nodes@[v].children@.len() == 0) by {
                    assert(t_old.nodes@[v].parent == Some(idx));
                    assert(!t_old.nodes@[idx as int].children@.contains(v as usize));
                }
                if i == v {
                    if t_fin.nodes@[idx as int].children@.contains(v as usize) {
                        assert(t_old.nodes@[idx as int].children@.contains(v as usize));
                    }
                } else {
                    crate::corridor_tree::lemma_chain_same(t_old, t_fin, v, i);
                    crate::corridor_tree::lemma_detached_subtree(t_old, v, i);
                    let q = t_fin.nodes@[i].parent.unwrap() as int;
                    assert(t_old.nodes@[i].parent == t_fin.nodes@[i].parent);
                    assert(!t_old.nodes@[q].children@.contains(i as usize));
                    if t_fin.nodes@[q].children@.contains(i as usize) {
                        assert(t_old.nodes@[q].children@.contains(i as usize));
                    }
                }
            }
        }
    }
}

/// The subtrees of two distinct children of one node never meet.
proof fn lemma_sibling_disjoint(t: crate::corridor_tree::CorridorTree, c1: int, c2: int, j: int)
    requires
        0 <= c1,
        0 <= c2,
        c1 != c2,
        t.nodes@[c1].parent is Some,
        t.nodes@[c2].parent is Some,
        t.nodes@[c1].parent == t.nodes@[c2].parent,
        t.nodes@[c1].parent.unwrap() < c1,
        t.nodes@[c2].parent.unwrap() < c2,
        crate::corridor_tree::in_subtree(t, c1, j),
    ensures
        !crate::corridor_tree::in_subtree(t, c2, j),
{
    let q = t.nodes@[c1].parent.unwrap() as int;
    if crate::corridor_tree::in_subtree(t, c2, j) {
        if c1 <= c2 {
            crate::corridor_tree::lemma_subtree_meet(t, c1, c2, j);
            assert(!crate::corridor_tree::in_subtree(t, c1, q));
        } else {
            crate::corridor_tree::lemma_subtree_meet(t, c2, c1, j);
            assert(!crate::corridor_tree::in_subtree(t, c2, q));
        }
    }
}

/// The subtrees of two distinct parentless nodes never meet.
proof fn lemma_root_disjoint(t: crate::corridor_tree::CorridorTree, r1: int, r2: int, j: int)
    requires
        0 <= r1,
        0 <= r2,
        r1 != r2,
        t.nodes@[r1].parent is None,
        t.nodes@[r2].parent is None,
        crate::corridor_tree::in_subtree(t, r1, j),
    ensures
        !crate::corridor_tree::in_subtree(t, r2, j),
{
    if crate::corridor_tree::in_subtree(t, r2, j) {
        if r1 <= r2 {
            crate::corridor_tree::lemma_subtree_meet(t, r1, r2, j);
            assert(!crate::corridor_tree::in_subtree(t, r1, r2));
        } else {
            crate::corridor_tree::lemma_subtree_meet(t, r2, r1, j);
            assert(!crate::corridor_tree::in_subtree(t, r2, r1));
        }
    }
}

/// An owned cell lies inside the map.
proof fn lemma_owned_in_bounds(m: CellMatrix, a: int, b: int)
    requires
        m.spec_section_at(a, b) is Some,
    ensures
        m.in_bounds(a, b),
{
    if !m.in_bounds(a, b) {
        assert(m.cell_at(a, b) is SolidRock);
    }
}

/// Discovers gaps between sections, opens a spanning set of connections
/// from the root section, then prunes unreachable shallow corridor-tree
/// leaves.
pub struct SectionMerger {
    pub map: CellMatrix,
    pub margins: (u8, u8),
    pub corridor_size: (u8, u8),
    pub prune_length: u32,
}

impl SectionMerger {
    /// Every corridor-tree node's footprint lies inside the map.
    pub open spec fn nodes_in_bounds(self) -> bool {
        forall|i: int|
            0 <= i < self.map.corridor_tree.nodes@.len() ==> (
            #[trigger] self.map.corridor_tree.nodes@[i]).x + self.corridor_size.0
                <= self.map.width && self.map.corridor_tree.nodes@[i].y + self.corridor_size.1
                <= self.map.height
    }

    /// Every corridor-tree node's footprint is carved ground: corridor
    /// cells, or cells already erased by pruning.
    pub open spec fn footprints_ok(self) -> bool {
        forall|i: int, a: int, b: int|
            #![trigger self.map.corridor_tree.nodes@[i], self.map.cell_at(a, b)]
            0 <= i < self.map.corridor_tree.nodes@.len()
                && self.map.corridor_tree.nodes@[i].x <= a < self.map.corridor_tree.nodes@[i].x
                + self.corridor_size.0 && self.map.corridor_tree.nodes@[i].y <= b
                < self.map.corridor_tree.nodes@[i].y + self.corridor_size.1 ==> (self.map.cell_at(
                a,
                b,
            ) is Corridor || self.map.cell_at(a, b) is Removed)
    }

    /// What merging relies on and preserves.
    pub open spec fn wf(self) -> bool {
        &&& self.map.dims_ok()
        &&& self.map.sections_valid()
        &&& self.map.corridor_tree.wf()
        &&& crate::corridor_tree::detached_closed(self.map.corridor_tree)
        &&& self.nodes_in_bounds()
        &&& self.footprints_ok()
        &&& all_conns_valid(self.map, self.corridor_size, self.margins)
        &&& self.margins.0 >= 1
        &&& self.margins.1 >= 1
        &&& self.corridor_size.0 >= 1
        &&& self.corridor_size.1 >= 1
    }

    /// Wrap a map for merging. Margins and corridor size must each be at
    /// least one cell.
    pub fn new(
        map: CellMatrix,
        margins: (u8, u8),
        corridor_size: (u8, u8),
        prune_length: u32,
    ) -> (s: SectionMerger)
        requires
            margins.0 >= 1,
            margins.1 >= 1,
            corridor_size.0 >= 1,
            corridor_size.1 >= 1,
        ensures
            s.map == map,
            s.margins == margins,
            s.corridor_size == corridor_size,
            s.prune_length == prune_length,
    {
        SectionMerger { map, margins, corridor_size, prune_length }
    }

    /// The score of one side of a gap, in thousandths: full for a corridor
    /// cell, triangular falloff toward the edge for a room cell, zero
    /// otherwise.
    pub fn score_pos(&self, x: i32, y: i32, horizontal: bool) -> (r: u32)
        requires
            self.map.dims_ok(),
            self.map.sections_valid(),
        ensures
            r == spec_score_at(self.map, self.corridor_size, x as int, y as int, horizontal),
            r <= SCORE_MAX,
    {
        let cell = self.map.get(x, y);
        proof {
            if self.map.in_bounds(x as int, y as int) {
                crate::cell_matrix::lemma_grid_index(
                    self.map.width as int,
                    self.map.height as int,
                    x as int,
                    y as int,
                );
                assert(self.map.tag_valid(
                    self.map.cell_vector@[y as int * self.map.width as int + x as int],
                ));
            }
        }
        match cell {
            Cell::Room(idx) => {
                let room = self.map.get_room(idx);
                if horizontal {
                    Self::score_room_side(room.x, room.width, x, self.corridor_size.0)
                } else {
                    Self::score_room_side(room.y, room.height, y, self.corridor_size.1)
                }
            },
            Cell::Corridor(_) => SCORE_MAX,
            _ => 0,
        }
    }

    /// The triangular room score along one axis.
    fn score_room_side(rx: u16, rdim: u16, position: i32, c: u8) -> (r: u32)
        ensures
            r == spec_room_score(rx as int, rdim as int, position as int, c as int),
            r <= SCORE_MAX,
    {
        if rdim == 0 {
            return 0;
        }
        let t: i64 = 2 * (position as i64) + c as i64 - 2 * (rx as i64) - rdim as i64;
        let d: i64 = if t < 0 {
            -t
        } else {
            t
        };
        proof {
            assert(0 <= (SCORE_MAX as int) * (d as int) <= 0x1F40_0000_0000) by (nonlinear_arith)
                requires
                    0 <= d <= 0x8_0000_0000,
            ;
            assert((SCORE_MAX as int) * (d as int) / (rdim as int) >= 0) by (nonlinear_arith)
                requires
                    (SCORE_MAX as int) * (d as int) >= 0,
                    rdim >= 1,
            ;
        }
        let scaled: i64 = (SCORE_MAX as i64) * d / (rdim as i64);
        if scaled >= SCORE_MAX as i64 {
            0
        } else {
            (SCORE_MAX as i64 - scaled) as u32
        }
    }

    /// Whether the probe rectangle at `(x, y)` belongs consistently to the
    /// section with index `section_idx`.
    pub fn is_section_with_margin(&self, x: i32, y: i32, section_idx: usize) -> (r: bool)
        requires
            self.map.dims_ok(),
            self.map.sections_valid(),
            section_idx < self.map.section_vec@.len(),
            -0x4000_0000 <= x <= 0x4000_0000,
            -0x4000_0000 <= y <= 0x4000_0000,
        ensures
            r == probe_consistent(self.map, x as int, y as int, self.corridor_size, section_idx as int),
    {
        let target_id = self.map.get_section_at(section_idx).get_id();
        let x1: i32 = x + self.corridor_size.0 as i32;
        let y1: i32 = y + self.corridor_size.1 as i32;
        let mut b: i32 = y;
        while b < y1
            invariant
                self.map.dims_ok(),
                self.map.sections_valid(),
                section_idx < self.map.section_vec@.len(),
                target_id == self.map.section_vec@[section_idx as int].id,
                x1 == x + self.corridor_size.0,
                y1 == y + self.corridor_size.1,
                -0x4000_0000 <= x <= 0x4000_0000,
                -0x4000_0000 <= y <= b <= y1 <= 0x4000_0400,
                forall|aa: int, bb: int|
                    x <= aa < x1 && y <= bb < b ==> {
                        &&& (#[trigger] self.map.spec_section_at(aa, bb)) is Some
                        &&& self.map.section_vec@[self.map.spec_section_at(
                            aa,
                            bb,
                        ).unwrap() as int].id == target_id
                    },
            decreases y1 - b,
        {
            let mut a: i32 = x;
            while a < x1
                invariant
                    self.map.dims_ok(),
                    self.map.sections_valid(),
                    section_idx < self.map.section_vec@.len(),
                    target_id == self.map.section_vec@[section_idx as int].id,
                    x1 == x + self.corridor_size.0,
                    y1 == y + self.corridor_size.1,
                    -0x4000_0000 <= x <= a <= x1 <= 0x4000_0400,
                    -0x4000_0000 <= y <= b < y1 <= 0x4000_0400,
                    forall|aa: int, bb: int|
                        x <= aa < x1 && y <= bb < b ==> {
                            &&& (#[trigger] self.map.spec_section_at(aa, bb)) is Some
                            &&& self.map.section_vec@[self.map.spec_section_at(
                                aa,
                                bb,
                            ).unwrap() as int].id == target_id
                        },
                    forall|aa: int|
                        x <= aa < a ==> {
                            &&& (#[trigger] self.map.spec_section_at(aa, b as int)) is Some
                            &&& self.map.section_vec@[self.map.spec_section_at(
                                aa,
                                b as int,
                            ).unwrap() as int].id == target_id
                        },
                decreases x1 - a,
            {
                match self.map.get_section_index(a, b) {
                    Some(si) => {
                        let sid = self.map.get_section_at(si).get_id();
                        if sid != target_id {
                            return false;
                        }
                    },
                    None => {
                        return false;
                    },
                }
                a += 1;
            }
            b += 1;
        }
        true
    }

    /// Phase 1: scan every rock cell for horizontal and vertical gaps of
    /// exactly one margin's width between two consistently owned, distinct
    /// sections, and record a mutual scored connection in both. The grid
    /// and the section ids are untouched; only connection lists grow, and
    /// every entry added records a gap that is valid in the scanned map.
    /// What one recording step leaves unchanged.
    pub open spec fn same_but_conns(self, o: SectionMerger) -> bool {
        &&& self.margins == o.margins
        &&& self.corridor_size == o.corridor_size
        &&& self.prune_length == o.prune_length
        &&& self.map.cell_vector == o.map.cell_vector
        &&& self.map.width == o.map.width
        &&& self.map.height == o.map.height
        &&& self.map.room_vec == o.map.room_vec
        &&& self.map.corridor_vec == o.map.corridor_vec
        &&& self.map.corridor_tree == o.map.corridor_tree
    }

    /// Probe the two sides of a possible horizontal gap at the rock cell
    /// `(x, y)` and record a mutual connection when both sides are
    /// consistently owned by sections of different ids.
    #[verifier::loop_isolation(false)]
    #[verifier::rlimit(100)]
    fn record_horizontal_gap(&mut self, x: u16, y: u16)
        requires
            old(self).wf(),
            x < old(self).map.width,
            y < old(self).map.height,
            old(self).map.cell_at(x as int, y as int) is Rock,
        ensures
            final(self).wf(),
            final(self).same_but_conns(*old(self)),
            conns_extended(old(self).map, final(self).map),
            new_conns_recorded(
                old(self).map,
                old(self).map,
                final(self).map,
                old(self).corridor_size,
                old(self).margins,
            ),
            h_gap_recorded_in(
                old(self).map,
                final(self).map,
                old(self).corridor_size,
                old(self).margins,
                x as int,
                y as int,
            ),
    {
        let cs = self.corridor_size;
        let mg = self.margins;
        let left = self.map.get_section_index(x as i32 - cs.0 as i32, y as i32);
        let right = self.map.get_section_index(x as i32 + mg.0 as i32, y as i32);
        let (li, ri) = match (left, right) {
            (Some(li), Some(ri)) => (li, ri),
            _ => {
                return ;
            },
        };
        let lid = self.map.get_section_at(li).get_id();
        let rid = self.map.get_section_at(ri).get_id();
        if lid == rid {
            return ;
        }
        if !self.is_section_with_margin(x as i32 - cs.0 as i32, y as i32, li) {
            return ;
        }
        if !self.is_section_with_margin(x as i32 + mg.0 as i32, y as i32, ri) {
            return ;
        }
        // A gap is a strip of uncarved rock, exactly one margin wide.
        if !rect_all_rock(&self.map, x as i32, y as i32, mg.0 as u16, cs.1 as u16) {
            return ;
        }
        let ls = self.score_pos(x as i32 - cs.0 as i32, y as i32, false);
        let rs = self.score_pos(x as i32 + mg.0 as i32, y as i32, false);
        let sc = if ls < rs {
            ls
        } else {
            rs
        };
        let ghost m0 = self.map;
        let ghost e_l = Connection { x, y, id: ri, score: sc, direction: Direction::E };
        let ghost e_r = Connection { x, y, id: li, score: sc, direction: Direction::W };
        proof {
            assert(h_gap_at(m0, cs, mg, x as int, y as int));
            assert(recorded_conn(m0, cs, mg, li, e_l));
            assert(recorded_conn(m0, cs, mg, ri, e_r));
            // The right probe rectangle is owned, so the connection's own
            // rectangle fits the map.
            assert(m0.spec_section_at(x + mg.0 + cs.0 - 1, y + cs.1 - 1) is Some);
            lemma_owned_in_bounds(m0, x + mg.0 + cs.0 - 1, y + cs.1 - 1);
            assert(li != ri);
        }
        self.map.section_add_connection(li, x, y, ri, sc, Direction::E);
        self.map.section_add_connection(ri, x, y, li, sc, Direction::W);
        proof {
            crate::labyrinth_generator::lemma_sections_valid_same(m0, self.map);
            crate::labyrinth_generator::lemma_same_cells(m0, self.map);
            lemma_footprints_same(*old(self), *self);
            assert(conn_valid(self.map, e_l, cs, mg));
            assert(conn_valid(self.map, e_r, cs, mg));
            assert forall|j: int, k: int|
                0 <= j < self.map.section_vec@.len() && 0 <= k
                    < self.map.section_vec@[j].connections@.len() implies conn_valid(
                self.map,
                #[trigger] self.map.section_vec@[j].connections@[k],
                cs,
                mg,
            ) by {
                if j == li && k == self.map.section_vec@[j].connections@.len() - 1 {
                } else if j == ri && k == self.map.section_vec@[j].connections@.len() - 1 {
                } else {
                    assert(self.map.section_vec@[j].connections@[k]
                        == m0.section_vec@[j].connections@[k]);
                    assert(conn_valid(m0, m0.section_vec@[j].connections@[k], cs, mg));
                }
            }
            assert forall|i: int|
                0 <= i < self.map.corridor_tree.nodes@.len() implies (
            #[trigger] self.map.corridor_tree.nodes@[i]).x + self.corridor_size.0
                <= self.map.width && self.map.corridor_tree.nodes@[i].y + self.corridor_size.1
                <= self.map.height by {
                assert(m0.corridor_tree.nodes@[i] == self.map.corridor_tree.nodes@[i]);
            }
            assert forall|j: int, k: int|
                0 <= j < self.map.section_vec@.len() && j < m0.section_vec@.len()
                    && m0.section_vec@[j].connections@.len() <= k
                    < self.map.section_vec@[j].connections@.len() implies recorded_conn(
                m0,
                cs,
                mg,
                j as usize,
                #[trigger] self.map.section_vec@[j].connections@[k],
            ) by {
                if j == li {
                    assert(self.map.section_vec@[j].connections@[k] == e_l);
                } else if j == ri {
                    assert(self.map.section_vec@[j].connections@[k] == e_r);
                }
            }
            let ll = self.map.section_vec@[li as int].connections@.len();
            assert(self.map.section_vec@[li as int].connections@[ll - 1] == e_l);
            assert(self.map.section_vec@[li as int].connections@.contains(e_l));
            let rl = self.map.section_vec@[ri as int].connections@.len();
            assert(self.map.section_vec@[ri as int].connections@[rl - 1] == e_r);
            assert(self.map.section_vec@[ri as int].connections@.contains(e_r));
            assert(sc as int == h_gap_score(m0, cs, mg, x as int, y as int));
            assert(e_l == h_east_entry(m0, cs, mg, x as int, y as int));
            assert(e_r == h_west_entry(m0, cs, mg, x as int, y as int));
            assert(h_gap_recorded_in(m0, self.map, cs, mg, x as int, y as int));
        }
    }

    /// Probe the two sides of a possible vertical gap at the rock cell
    /// `(x, y)`, symmetrically to the horizontal case.
    #[verifier::loop_isolation(false)]
    #[verifier::rlimit(100)]
    fn record_vertical_gap(&mut self, x: u16, y: u16)
        requires
            old(self).wf(),
            x < old(self).map.width,
            y < old(self).map.height,
            old(self).map.cell_at(x as int, y as int) is Rock,
        ensures
            final(self).wf(),
            final(self).same_but_conns(*old(self)),
            conns_extended(old(self).map, final(self).map),
            new_conns_recorded(
                old(self).map,
                old(self).map,
                final(self).map,
                old(self).corridor_size,
                old(self).margins,
            ),
            v_gap_recorded_in(
                old(self).map,
                final(self).map,
                old(self).corridor_size,
                old(self).margins,
                x as int,
                y as int,
            ),
    {
        let cs = self.corridor_size;
        let mg = self.margins;
        let top = self.map.get_section_index(x as i32, y as i32 - cs.1 as i32);
        let bottom = self.map.get_section_index(x as i32, y as i32 + mg.1 as i32);
        let (ti, bi) = match (top, bottom) {
            (Some(ti), Some(bi)) => (ti, bi),
            _ => {
                return ;
            },
        };
        let tid = self.map.get_section_at(ti).get_id();
        let bid = self.map.get_section_at(bi).get_id();
        if tid == bid {
            return ;
        }
        if !self.is_section_with_margin(x as i32, y as i32 - cs.1 as i32, ti) {
            return ;
        }
        if !self.is_section_with_margin(x as i32, y as i32 + mg.1 as i32, bi) {
            return ;
        }
        // A gap is a strip of uncarved rock, exactly one margin wide.
        if !rect_all_rock(&self.map, x as i32, y as i32, cs.0 as u16, mg.1 as u16) {
            return ;
        }
        let ts = self.score_pos(x as i32, y as i32 - cs.1 as i32, true);
        let bs = self.score_pos(x as i32, y as i32 + mg.1 as i32, true);
        let sc = if ts < bs {
            ts
        } else {
            bs
        };
        let ghost m0 = self.map;
        let ghost e_t = Connection { x, y, id: bi, score: sc, direction: Direction::S };
        let ghost e_b = Connection { x, y, id: ti, score: sc, direction: Direction::N };
        proof {
            assert(v_gap_at(m0, cs, mg, x as int, y as int));
            assert(recorded_conn(m0, cs, mg, ti, e_t));
            assert(recorded_conn(m0, cs, mg, bi, e_b));
            assert(m0.spec_section_at(x + cs.0 - 1, y + mg.1 + cs.1 - 1) is Some);
            lemma_owned_in_bounds(m0, x + cs.0 - 1, y + mg.1 + cs.1 - 1);
            assert(ti != bi);
        }
        self.map.section_add_connection(ti, x, y, bi, sc, Direction::S);
        self.map.section_add_connection(bi, x, y, ti, sc, Direction::N);
        proof {
            crate::labyrinth_generator::lemma_sections_valid_same(m0, self.map);
            crate::labyrinth_generator::lemma_same_cells(m0, self.map);
            lemma_footprints_same(*old(self), *self);
            assert(conn_valid(self.map, e_t, cs, mg));
            assert(conn_valid(self.map, e_b, cs, mg));
            assert forall|j: int, k: int|
                0 <= j < self.map.section_vec@.len() && 0 <= k
                    < self.map.section_vec@[j].connections@.len() implies conn_valid(
                self.map,
                #[trigger] self.map.section_vec@[j].connections@[k],
                cs,
                mg,
            ) by {
                if j == ti && k == self.map.section_vec@[j].connections@.len() - 1 {
                } else if j == bi && k == self.map.section_vec@[j].connections@.len() - 1 {
                } else {
                    assert(self.map.section_vec@[j].connections@[k]
                        == m0.section_vec@[j].connections@[k]);
                    assert(conn_valid(m0, m0.section_vec@[j].connections@[k], cs, mg));
                }
            }
            assert forall|i: int|
                0 <= i < self.map.corridor_tree.nodes@.len() implies (
            #[trigger] self.map.corridor_tree.nodes@[i]).x + self.corridor_size.0
                <= self.map.width && self.map.corridor_tree.nodes@[i].y + self.corridor_size.1
                <= self.map.height by {
                assert(m0.corridor_tree.nodes@[i] == self.map.corridor_tree.nodes@[i]);
            }
            assert forall|j: int, k: int|
                0 <= j < self.map.section_vec@.len() && j < m0.section_vec@.len()
                    && m0.section_vec@[j].connections@.len() <= k
                    < self.map.section_vec@[j].connections@.len() implies recorded_conn(
                m0,
                cs,
                mg,
                j as usize,
                #[trigger] self.map.section_vec@[j].connections@[k],
            ) by {
                if j == ti {
                    assert(self.map.section_vec@[j].connections@[k] == e_t);
                } else if j == bi {
                    assert(self.map.section_vec@[j].connections@[k] == e_b);
                }
            }
            let tl = self.map.section_vec@[ti as int].connections@.len();
            assert(self.map.section_vec@[ti as int].connections@[tl - 1] == e_t);
            assert(self.map.section_vec@[ti as int].connections@.contains(e_t));
            let bl = self.map.section_vec@[bi as int].connections@.len();
            assert(self.map.section_vec@[bi as int].connections@[bl - 1] == e_b);
            assert(self.map.section_vec@[bi as int].connections@.contains(e_b));
            assert(sc as int == v_gap_score(m0, cs, mg, x as int, y as int));
            assert(e_t == v_south_entry(m0, cs, mg, x as int, y as int));
            assert(e_b == v_north_entry(m0, cs, mg, x as int, y as int));
            assert(v_gap_recorded_in(m0, self.map, cs, mg, x as int, y as int));
        }
    }

    /// Phase 1: scan every rock cell for horizontal and vertical gaps of
    /// exactly one margin's width between two consistently owned, distinct
    /// sections, and record a mutual scored connection in both. The grid
    /// and the section ids are untouched; only connection lists grow, and
    /// every entry added records a gap that is valid in the scanned map.
    #[verifier::loop_isolation(false)]
    pub fn discover_connections(&mut self)
        requires
            old(self).wf(),
        ensures
            final(self).wf(),
            final(self).same_but_conns(*old(self)),
            conns_extended(old(self).map, final(self).map),
            new_conns_recorded(
                old(self).map,
                old(self).map,
                final(self).map,
                old(self).corridor_size,
                old(self).margins,
            ),
            forall|a: int, b: int|
                0 <= a < old(self).map.width as int && 0 <= b < old(self).map.height as int
                    ==> #[trigger] h_gap_recorded_in(
                    old(self).map,
                    final(self).map,
                    old(self).corridor_size,
                    old(self).margins,
                    a,
                    b,
                ),
            forall|a: int, b: int|
                0 <= a < old(self).map.width as int && 0 <= b < old(self).map.height as int
                    ==> #[trigger] v_gap_recorded_in(
                    old(self).map,
                    final(self).map,
                    old(self).corridor_size,
                    old(self).margins,
                    a,
                    b,
                ),
    {
        let width = self.map.width;
        let height = self.map.height;
        let mut y: u16 = 0;
        while y < height
            invariant
                y <= height,
                self.wf(),
                self.same_but_conns(*old(self)),
                conns_extended(old(self).map, self.map),
                new_conns_recorded(
                    old(self).map,
                    old(self).map,
                    self.map,
                    old(self).corridor_size,
                    old(self).margins,
                ),
                forall|a: int, b: int|
                    0 <= a < width as int && 0 <= b < y as int
                        ==> #[trigger] h_gap_recorded_in(
                        old(self).map,
                        self.map,
                        old(self).corridor_size,
                        old(self).margins,
                        a,
                        b,
                    ),
                forall|a: int, b: int|
                    0 <= a < width as int && 0 <= b < y as int
                        ==> #[trigger] v_gap_recorded_in(
                        old(self).map,
                        self.map,
                        old(self).corridor_size,
                        old(self).margins,
                        a,
                        b,
                    ),
            decreases height - y,
        {
            let mut x: u16 = 0;
            while x < width
                invariant
                    y < height,
                    x <= width,
                    self.wf(),
                    self.same_but_conns(*old(self)),
                    conns_extended(old(self).map, self.map),
                    new_conns_recorded(
                        old(self).map,
                        old(self).map,
                        self.map,
                        old(self).corridor_size,
                        old(self).margins,
                    ),
                    forall|a: int, b: int|
                        0 <= a < width as int && 0 <= b < height as int && (b < y as int || (b
                            == y as int && a < x as int)) ==> #[trigger] h_gap_recorded_in(
                            old(self).map,
                            self.map,
                            old(self).corridor_size,
                            old(self).margins,
                            a,
                            b,
                        ),
                    forall|a: int, b: int|
                        0 <= a < width as int && 0 <= b < height as int && (b < y as int || (b
                            == y as int && a < x as int)) ==> #[trigger] v_gap_recorded_in(
                            old(self).map,
                            self.map,
                            old(self).corridor_size,
                            old(self).margins,
                            a,
                            b,
                        ),
                decreases width - x,
            {
                let ghost s0 = *self;
                let cell = self.map.get(x as i32, y as i32);
                if cell.is_rock() {
                    self.record_horizontal_gap(x, y);
                    let ghost s1 = *self;
                    self.record_vertical_gap(x, y);
                    proof {
                        let cs = old(self).corridor_size;
                        let mg = old(self).margins;
                        lemma_recorded_rebase(s0.map, old(self).map, s0.map, s1.map, cs, mg);
                        lemma_recorded_rebase(s1.map, old(self).map, s1.map, self.map, cs, mg);
                        lemma_extend_trans(old(self).map, s0.map, s1.map);
                        lemma_recorded_trans(old(self).map, old(self).map, s0.map, s1.map, cs, mg);
                        lemma_extend_trans(old(self).map, s1.map, self.map);
                        lemma_recorded_trans(old(self).map, old(self).map, s1.map, self.map, cs, mg);
                        lemma_extend_trans(s0.map, s1.map, self.map);
                        // The freshly scanned cell: the helpers recorded its
                        // gaps, read against their own map states; those
                        // states name the same gaps as the incoming map.
                        lemma_h_gap_same(old(self).map, s0.map, cs, mg, x as int, y as int);
                        assert(h_gap_recorded_in(old(self).map, s1.map, cs, mg, x as int, y as int))
                            by {
                            if h_gap_at(old(self).map, cs, mg, x as int, y as int) {
                                assert(h_east_entry(s0.map, cs, mg, x as int, y as int)
                                    == h_east_entry(old(self).map, cs, mg, x as int, y as int));
                                assert(h_west_entry(s0.map, cs, mg, x as int, y as int)
                                    == h_west_entry(old(self).map, cs, mg, x as int, y as int));
                            }
                        }
                        lemma_h_recorded_mono(
                            old(self).map,
                            s1.map,
                            self.map,
                            cs,
                            mg,
                            x as int,
                            y as int,
                        );
                        lemma_v_gap_same(old(self).map, s1.map, cs, mg, x as int, y as int);
                        assert(v_gap_recorded_in(
                            old(self).map,
                            self.map,
                            cs,
                            mg,
                            x as int,
                            y as int,
                        )) by {
                            if v_gap_at(old(self).map, cs, mg, x as int, y as int) {
                                assert(v_south_entry(s1.map, cs, mg, x as int, y as int)
                                    == v_south_entry(old(self).map, cs, mg, x as int, y as int));
                                assert(v_north_entry(s1.map, cs, mg, x as int, y as int)
                                    == v_north_entry(old(self).map, cs, mg, x as int, y as int));
                            }
                        }
                        // Cells scanned earlier keep their recorded entries.
                        assert forall|a: int, b: int|
                            0 <= a < width as int && 0 <= b < height as int && (b < y as int || (b
                                == y as int && a < x as int)) implies #[trigger] h_gap_recorded_in(
                            old(self).map,
                            self.map,
                            cs,
                            mg,
                            a,
                            b,
                        ) by {
                            assert(h_gap_recorded_in(old(self).map, s0.map, cs, mg, a, b));
                            lemma_h_recorded_mono(old(self).map, s0.map, self.map, cs, mg, a, b);
                        }
                        assert forall|a: int, b: int|
                            0 <= a < width as int && 0 <= b < height as int && (b < y as int || (b
                                == y as int && a < x as int)) implies #[trigger] v_gap_recorded_in(
                            old(self).map,
                            self.map,
                            cs,
                            mg,
                            a,
                            b,
                        ) by {
                            assert(v_gap_recorded_in(old(self).map, s0.map, cs, mg, a, b));
                            lemma_v_recorded_mono(old(self).map, s0.map, self.map, cs, mg, a, b);
                        }
                    }
                } else {
                    proof {
                        // Not a rock cell: the incoming map has no gap here.
                        crate::labyrinth_generator::lemma_same_cells(old(self).map, self.map);
                        assert(old(self).map.cell_at(x as int, y as int) == cell);
                        assert(!h_gap_at(
                            old(self).map,
                            old(self).corridor_size,
                            old(self).margins,
                            x as int,
                            y as int,
                        ));
                        assert(!v_gap_at(
                            old(self).map,
                            old(self).corridor_size,
                            old(self).margins,
                            x as int,
                            y as int,
                        ));
                    }
                }
                x += 1;
            }
            y += 1;
        }
    }

    /// Walk one candidate list: when a connection's target section does
    /// not yet carry `id`, open the connection's rectangle as walkable
    /// `Connection` cells, relabel the target and recurse into its best
    /// candidates. Returns how many sections were newly relabeled, in this
    /// call and below it. If every target already carried `id`, nothing
    /// changes at all.
    #[verifier::loop_isolation(false)]
    #[verifier::rlimit(100)]
    pub(crate) fn iterate_connections(&mut self, connections: &Vec<Connection>, id: usize) -> (counted:
        usize)
        requires
            old(self).wf(),
            id < old(self).map.section_vec@.len(),
            conns_from(old(self).map, connections@),
        ensures
            final(self).wf(),
            final(self).margins == old(self).margins,
            final(self).corridor_size == old(self).corridor_size,
            final(self).prune_length == old(self).prune_length,
            phase2_step(
                old(self).map,
                final(self).map,
                old(self).corridor_size,
                old(self).margins,
                id,
            ),
            counted == count_not_id(old(self).map.section_vec@, id) - count_not_id(
                final(self).map.section_vec@,
                id,
            ),
            forall|k: int|
                0 <= k < connections@.len() ==> final(self).map.section_vec@[(
                #[trigger] connections@[k]).id as int].id == id,
            (forall|k: int|
                0 <= k < connections@.len() ==> old(self).map.section_vec@[(
                #[trigger] connections@[k]).id as int].id == id) ==> *final(self) == *old(self),
        decreases count_not_id(self.map.section_vec@, id),
    {
        let ghost cs = old(self).corridor_size;
        let ghost mg = old(self).margins;
        let ghost c_entry = count_not_id(old(self).map.section_vec@, id);
        let total = self.map.section_vec.len();
        proof {
            lemma_count_not_id_bound(old(self).map.section_vec@, id);
            assert(c_entry <= total);
        }
        let ghost hyp = forall|k: int|
            0 <= k < connections@.len() ==> old(self).map.section_vec@[(
            #[trigger] connections@[k]).id as int].id == id;
        let mut counted: usize = 0;
        let mut i: usize = 0;
        while i < connections.len()
            invariant
                i <= connections@.len(),
                self.wf(),
                self.margins == old(self).margins,
                self.corridor_size == old(self).corridor_size,
                self.prune_length == old(self).prune_length,
                phase2_step(old(self).map, self.map, cs, mg, id),
                counted == c_entry - count_not_id(self.map.section_vec@, id),
                count_not_id(self.map.section_vec@, id) <= c_entry,
                forall|k: int|
                    0 <= k < i ==> self.map.section_vec@[(#[trigger] connections@[k]).id as int].id
                        == id,
                hyp ==> *self == *old(self),
            decreases connections@.len() - i,
        {
            let c = connections[i];
            proof {
                let j0 = choose|j0: int|
                    #![auto]
                    0 <= j0 < old(self).map.section_vec@.len() && old(
                        self,
                    ).map.section_vec@[j0].connections@.contains(connections@[i as int]);
                let k0 = choose|k0: int|
                    0 <= k0 < old(self).map.section_vec@[j0].connections@.len() && old(
                        self,
                    ).map.section_vec@[j0].connections@[k0] == connections@[i as int];
                assert(conn_valid(old(self).map, c, cs, mg));
                assert(self.map.section_vec@[j0].connections
                    == old(self).map.section_vec@[j0].connections);
                assert(self.map.section_vec@[j0].connections@[k0] == c);
                assert(conn_valid(self.map, c, cs, mg));
            }
            let target = self.map.get_section_at(c.id).get_id();
            if target != id {
                proof {
                    if hyp {
                        assert(old(self).map.section_vec@[c.id as int].id == id);
                        assert(false);
                    }
                }
                let ghost s_rect = *self;
                let ghost pre_rect = self.map;
                match c.direction {
                    Direction::N | Direction::S => {
                        self.map.set_rect(
                            Cell::Connection,
                            c.x,
                            c.y,
                            self.corridor_size.0 as u16,
                            self.margins.1 as u16,
                        );
                    },
                    Direction::E | Direction::W => {
                        self.map.set_rect(
                            Cell::Connection,
                            c.x,
                            c.y,
                            self.margins.0 as u16,
                            self.corridor_size.1 as u16,
                        );
                    },
                }
                proof {
                    CellMatrix::lemma_sections_valid_cells(pre_rect, self.map);
                    lemma_count_not_id_same(pre_rect.section_vec@, self.map.section_vec@, id);
                    assert forall|a: int, b: int|
                        #[trigger] self.map.cell_at(a, b) == pre_rect.cell_at(a, b) || (
                    pre_rect.cell_at(a, b) is Rock && self.map.cell_at(a, b) is Connection
                        && in_some_conn_rect(pre_rect, cs, mg, a, b)) by {
                        if self.map.cell_at(a, b) != pre_rect.cell_at(a, b) {
                            assert(c.x <= a < c.x + conn_rect_w(c, cs, mg) && c.y <= b < c.y
                                + conn_rect_h(c, cs, mg));
                            assert(pre_rect.cell_at(a, b) is Rock || pre_rect.cell_at(a, b)
                                is Connection);
                            assert(self.map.cell_at(a, b) is Connection);
                            let j0 = choose|j0: int|
                                #![auto]
                                0 <= j0 < old(self).map.section_vec@.len() && old(
                                    self,
                                ).map.section_vec@[j0].connections@.contains(
                                    connections@[i as int],
                                );
                            let k0 = choose|k0: int|
                                0 <= k0 < old(self).map.section_vec@[j0].connections@.len() && old(
                                    self,
                                ).map.section_vec@[j0].connections@[k0] == connections@[i as int];
                            assert(pre_rect.section_vec@[j0].connections
                                == old(self).map.section_vec@[j0].connections);
                            assert(pre_rect.section_vec@[j0].connections@[k0] == c);
                        }
                    }
                    // Every stored candidate keeps a clean rectangle: the
                    // only change turned rock into connection cells.
                    assert forall|j: int, k: int|
                        0 <= j < self.map.section_vec@.len() && 0 <= k
                            < self.map.section_vec@[j].connections@.len() implies conn_valid(
                        self.map,
                        #[trigger] self.map.section_vec@[j].connections@[k],
                        cs,
                        mg,
                    ) by {
                        let e = self.map.section_vec@[j].connections@[k];
                        assert(pre_rect.section_vec@[j].connections@[k] == e);
                        assert(conn_valid(pre_rect, e, cs, mg));
                        assert forall|a: int, b: int|
                            e.x <= a < e.x + conn_rect_w(e, cs, mg) && e.y <= b < e.y
                                + conn_rect_h(e, cs, mg) implies ((#[trigger] self.map.cell_at(
                            a,
                            b,
                        )) is Rock || self.map.cell_at(a, b) is Connection) by {
                            if self.map.cell_at(a, b) != pre_rect.cell_at(a, b) {
                                assert(self.map.cell_at(a, b) is Connection);
                            } else {
                                assert(pre_rect.cell_at(a, b) is Rock || pre_rect.cell_at(a, b)
                                    is Connection);
                            }
                        }
                    }
                    // Footprints hold carved ground, which the write never
                    // touches.
                    assert(self.footprints_ok()) by {
                        assert forall|i2: int, a: int, b: int|
                            #![trigger self.map.corridor_tree.nodes@[i2], self.map.cell_at(a, b)]
                            0 <= i2 < self.map.corridor_tree.nodes@.len()
                                && self.map.corridor_tree.nodes@[i2].x <= a
                                < self.map.corridor_tree.nodes@[i2].x + self.corridor_size.0
                                && self.map.corridor_tree.nodes@[i2].y <= b
                                < self.map.corridor_tree.nodes@[i2].y + self.corridor_size.1
                            implies (self.map.cell_at(a, b) is Corridor || self.map.cell_at(a, b)
                            is Removed) by {
                            assert(s_rect.map.corridor_tree.nodes@[i2]
                                == self.map.corridor_tree.nodes@[i2]);
                            assert(s_rect.map.cell_at(a, b) is Corridor || s_rect.map.cell_at(a, b)
                                is Removed);
                            if self.map.cell_at(a, b) != pre_rect.cell_at(a, b) {
                                assert(pre_rect.cell_at(a, b) is Rock || pre_rect.cell_at(a, b)
                                    is Connection);
                                assert(false);
                            }
                        }
                    }
                    assert(phase2_step(pre_rect, self.map, cs, mg, id));
                    lemma_phase2_trans(old(self).map, pre_rect, self.map, cs, mg, id);
                }
                let ghost s_lab = *self;
                let ghost pre_label = self.map;
                self.map.set_section_id(c.id, id);
                proof {
                    lemma_count_not_id_update(
                        pre_label.section_vec@,
                        self.map.section_vec@,
                        id,
                        c.id as int,
                    );
                    lemma_count_not_id_bound(old(self).map.section_vec@, id);
                    assert(counted + 1 <= c_entry);
                }
                counted += 1;
                proof {
                    crate::labyrinth_generator::lemma_same_cells(pre_label, self.map);
                    CellMatrix::lemma_sections_valid_cells(pre_label, self.map);
                    lemma_footprints_same(s_lab, *self);
                    assert forall|j: int, k: int|
                        0 <= j < self.map.section_vec@.len() && 0 <= k
                            < self.map.section_vec@[j].connections@.len() implies conn_valid(
                        self.map,
                        #[trigger] self.map.section_vec@[j].connections@[k],
                        cs,
                        mg,
                    ) by {
                        let e = self.map.section_vec@[j].connections@[k];
                        assert(pre_label.section_vec@[j].connections@[k] == e);
                        assert(conn_valid(pre_label, e, cs, mg));
                        assert forall|a: int, b: int|
                            e.x <= a < e.x + conn_rect_w(e, cs, mg) && e.y <= b < e.y
                                + conn_rect_h(e, cs, mg) implies ((#[trigger] self.map.cell_at(
                            a,
                            b,
                        )) is Rock || self.map.cell_at(a, b) is Connection) by {
                            assert(self.map.cell_at(a, b) == pre_label.cell_at(a, b));
                            assert(pre_label.cell_at(a, b) is Rock || pre_label.cell_at(a, b)
                                is Connection);
                        }
                    }
                    assert(phase2_step(pre_label, self.map, cs, mg, id));
                    lemma_phase2_trans(old(self).map, pre_label, self.map, cs, mg, id);
                }
                let next = {
                    let s = self.map.get_section_at(c.id);
                    proof {
                        assert forall|k: int|
                            0 <= k < s.connections@.len() implies (
                        #[trigger] s.connections@[k]).id < self.map.section_vec@.len() by {
                            assert(conn_valid(
                                self.map,
                                self.map.section_vec@[c.id as int].connections@[k],
                                cs,
                                mg,
                            ));
                        }
                    }
                    self.map.get_best_connections(s)
                };
                proof {
                    assert forall|k: int|
                        0 <= k < next@.len() implies exists|j2: int|
                        #![auto]
                        0 <= j2 < self.map.section_vec@.len()
                            && self.map.section_vec@[j2].connections@.contains(
                            #[trigger] next@[k],
                        ) by {
                        assert(0 <= (c.id as int) < self.map.section_vec@.len()
                            && self.map.section_vec@[c.id as int].connections@.contains(next@[k]));
                    }
                    assert(conns_from(self.map, next@));
                }
                let ghost pre_rec = *self;
                let sub = self.iterate_connections(&next, id);
                proof {
                    lemma_phase2_trans(old(self).map, pre_rec.map, self.map, cs, mg, id);
                    lemma_count_not_id_le(
                        pre_rec.map.section_vec@,
                        self.map.section_vec@,
                        id,
                    );
                    lemma_count_not_id_bound(old(self).map.section_vec@, id);
                    assert(counted + sub == c_entry - count_not_id(self.map.section_vec@, id));
                    assert(counted + sub <= c_entry);
                }
                counted += sub;
            }
            proof {
                assert(self.map.section_vec@[c.id as int].id == id);
                assert forall|k: int| 0 <= k < i + 1 implies self.map.section_vec@[(
                #[trigger] connections@[k]).id as int].id == id by {
                    if k < i {
                        assert(self.map.section_vec@[connections@[k].id as int].id == id);
                    }
                }
            }
            i += 1;
        }
        counted
    }

    /// Phase 2: best-first spanning propagation from the root section, the
    /// one at index zero. Its deduplicated best candidates are walked in
    /// descending score order; a candidate whose target does not yet carry
    /// the root's id has its gap opened into walkable `Connection` cells,
    /// its target relabeled and explored in turn. Sections never reached
    /// keep their original id. Running this again when every candidate of
    /// the root already leads to root-labeled sections changes nothing at
    /// all.
    #[verifier::loop_isolation(false)]
    #[verifier::rlimit(100)]
    pub fn connect_sections(&mut self)
        requires
            old(self).wf(),
        ensures
            final(self).wf(),
            final(self).margins == old(self).margins,
            final(self).corridor_size == old(self).corridor_size,
            final(self).prune_length == old(self).prune_length,
            old(self).map.section_vec@.len() == 0 ==> *final(self) == *old(self),
            old(self).map.section_vec@.len() > 0 ==> phase2_step(
                old(self).map,
                final(self).map,
                old(self).corridor_size,
                old(self).margins,
                old(self).map.section_vec@[0].id,
            ),
            propagation_run(
                old(self).map,
                final(self).map,
                old(self).corridor_size,
                old(self).margins,
            ),
    {
        if self.map.section_vec.len() == 0 {
            return ;
        }
        let ghost cs = old(self).corridor_size;
        let ghost mg = old(self).margins;
        let id = self.map.get_section_at(0).get_id();
        let best = {
            let s = self.map.get_section_at(0);
            proof {
                assert forall|k: int|
                    0 <= k < s.connections@.len() implies (#[trigger] s.connections@[k]).id
                    < self.map.section_vec@.len() by {
                    assert(conn_valid(
                        self.map,
                        self.map.section_vec@[0].connections@[k],
                        cs,
                        mg,
                    ));
                }
            }
            self.map.get_best_connections(s)
        };
        proof {
            assert forall|k: int|
                0 <= k < best@.len() implies exists|j2: int|
                #![auto]
                0 <= j2 < self.map.section_vec@.len()
                    && self.map.section_vec@[j2].connections@.contains(#[trigger] best@[k]) by {
                assert(0 <= 0int < self.map.section_vec@.len()
                    && self.map.section_vec@[0].connections@.contains(best@[k]));
            }
            assert(conns_from(self.map, best@));
        }
        let _counted = self.iterate_connections(&best, id);
        proof {
            if root_neighbors_merged(old(self).map) {
                assert forall|k: int| 0 <= k < best@.len() implies old(self).map.section_vec@[(
                #[trigger] best@[k]).id as int].id == id by {
                    assert(old(self).map.section_vec@[0].connections@.contains(best@[k]));
                    let k2 = choose|k2: int|
                        0 <= k2 < old(self).map.section_vec@[0].connections@.len() && old(
                            self,
                        ).map.section_vec@[0].connections@[k2] == best@[k];
                    assert(old(self).map.section_vec@[(old(
                        self,
                    ).map.section_vec@[0].connections@[k2]).id as int].id == id);
                }
            }
            if ids_identity(old(self).map) {
                assert forall|k: int|
                    0 <= k < old(self).map.section_vec@[0].connections@.len() implies
                    self.map.section_vec@[(
                #[trigger] old(self).map.section_vec@[0].connections@[k]).id as int].id == id by {
                    reveal(CellMatrix::same_conn_key);
                    let e = old(self).map.section_vec@[0].connections@[k];
                    assert(conn_valid(old(self).map, e, cs, mg));
                    let j = choose|j: int|
                        #![auto]
                        0 <= j < best@.len() && old(self).map.same_conn_key(e, best@[j])
                            && best@[j].score >= e.score;
                    assert(old(self).map.section_vec@[0].connections@.contains(best@[j]));
                    let k2 = choose|k2: int|
                        0 <= k2 < old(self).map.section_vec@[0].connections@.len() && old(
                            self,
                        ).map.section_vec@[0].connections@[k2] == best@[j];
                    assert(conn_valid(old(self).map, best@[j], cs, mg));
                    // Same key and freshly numbered ids: the same target.
                    assert(old(self).map.section_vec@[e.id as int].id == e.id);
                    assert(old(self).map.section_vec@[best@[j].id as int].id == best@[j].id);
                    assert(e.id == best@[j].id);
                    assert(self.map.section_vec@[best@[j].id as int].id == id);
                }
            }
            assert(propagation_run(old(self).map, self.map, cs, mg));
        }
    }

    /// Phase 3, one node: walk the corridor tree depth-first with a running
    /// branch depth. A branch point restarts the depth for each child; a
    /// single child continues it; a leaf shallower than the prune threshold
    /// whose surroundings hold no `Connection` cell is erased on the edge
    /// facing away from its parent and detached. A node whose children were
    /// all pruned away is evaluated as a leaf in turn, so no disposable
    /// leaf survives anywhere in this node's subtree.
    #[verifier::loop_isolation(false)]
    #[verifier::rlimit(100)]
    pub(crate) fn iterate_node(&mut self, idx: usize, count: usize)
        requires
            old(self).wf(),
            idx < old(self).map.corridor_tree.nodes@.len(),
            count <= idx,
        ensures
            final(self).wf(),
            final(self).margins == old(self).margins,
            final(self).corridor_size == old(self).corridor_size,
            final(self).prune_length == old(self).prune_length,
            phase3_step(old(self).map, final(self).map, old(self).corridor_size),
            forall|j: int, v: usize|
                #![trigger old(self).map.corridor_tree.nodes@[j].children@.contains(v)]
                0 <= j < old(self).map.corridor_tree.nodes@.len()
                    && old(self).map.corridor_tree.nodes@[j].children@.contains(v)
                    && !final(self).map.corridor_tree.nodes@[j].children@.contains(v)
                    ==> crate::corridor_tree::in_subtree(
                    old(self).map.corridor_tree,
                    idx as int,
                    v as int,
                ),
            forall|j: int|
                0 <= j < old(self).map.corridor_tree.nodes@.len()
                    && !crate::corridor_tree::in_subtree(
                    old(self).map.corridor_tree,
                    idx as int,
                    j,
                ) && (old(self).map.corridor_tree.nodes@[idx as int].parent matches Some(pq)
                    ==> pq as int != j)
                    ==> #[trigger] final(self).map.corridor_tree.nodes@[j].children
                    == old(self).map.corridor_tree.nodes@[j].children,
            no_disposable_in(
                final(self).map,
                old(self).corridor_size,
                old(self).prune_length,
                idx as int,
                count as int,
            ),
            ({
                let t = final(self).map.corridor_tree;
                &&& t.nodes@[idx as int].children@.len() == 0
                &&& count < old(self).prune_length
                &&& t.nodes@[idx as int].parent is Some
                &&& no_connection_around(
                    final(self).map,
                    t.nodes@[idx as int].x as int,
                    t.nodes@[idx as int].y as int,
                    old(self).corridor_size,
                )
            }) ==> ({
                let t = final(self).map.corridor_tree;
                let p = t.nodes@[idx as int].parent.unwrap();
                &&& !t.nodes@[p as int].children@.contains(idx)
                &&& away_edge_removed(
                    final(self).map,
                    t.nodes@[idx as int].x as int,
                    t.nodes@[idx as int].y as int,
                    t.nodes@[p as int].x as int,
                    t.nodes@[p as int].y as int,
                    old(self).corridor_size,
                )
            }),
        decreases old(self).map.corridor_tree.nodes@.len() - idx,
    {
        let ghost cs = old(self).corridor_size;
        let ghost pl = old(self).prune_length;
        let ghost t_old = old(self).map.corridor_tree;
        let children = crate::corridor_tree::copy_indices(
            &self.map.corridor_tree.nodes[idx].children,
        );
        proof {
            assert(t_old == self.map.corridor_tree);
            assert(t_old.node_wf(idx as int));
            assert forall|k: int| 0 <= k < children@.len() implies {
                &&& idx < children@[k] < t_old.nodes@.len()
                &&& t_old.nodes@[children@[k] as int].parent == Some(idx)
                &&& crate::corridor_tree::in_subtree(t_old, idx as int, children@[k] as int)
            } by {
                assert(t_old.nodes@[idx as int].children@[k] == children@[k]);
                assert(idx < t_old.nodes@[idx as int].children@[k] < t_old.nodes@.len());
                assert(t_old.nodes@[t_old.nodes@[idx as int].children@[k] as int].parent == Some(
                    idx,
                ));
                assert(crate::corridor_tree::in_subtree(t_old, idx as int, idx as int));
            }
        }
        let n_start = children.len();
        let ghost c_sub: int = if n_start > 1 {
            0
        } else {
            count as int + 1
        };
        if n_start > 1 {
            // A branch point: each child starts a fresh stretch.
            let mut k: usize = 0;
            while k < n_start
                invariant
                    k <= n_start,
                    self.wf(),
                    self.margins == old(self).margins,
                    self.corridor_size == old(self).corridor_size,
                    self.prune_length == old(self).prune_length,
                    phase3_step(old(self).map, self.map, cs),
                    n_start == children@.len(),
                    children@ == t_old.nodes@[idx as int].children@,
                    forall|kk: int|
                        0 <= kk < k ==> no_disposable_in(
                            self.map,
                            cs,
                            pl,
                            #[trigger] children@[kk] as int,
                            0,
                        ),
                    forall|j: int, v: usize|
                        #![trigger t_old.nodes@[j].children@.contains(v)]
                        0 <= j < t_old.nodes@.len() && t_old.nodes@[j].children@.contains(v)
                            && !self.map.corridor_tree.nodes@[j].children@.contains(v)
                            ==> crate::corridor_tree::in_subtree(t_old, idx as int, v as int),
                    forall|j: int|
                        0 <= j < t_old.nodes@.len() && !crate::corridor_tree::in_subtree(
                            t_old,
                            idx as int,
                            j,
                        ) ==> #[trigger] self.map.corridor_tree.nodes@[j].children
                            == t_old.nodes@[j].children,
                decreases n_start - k,
            {
                let c = children[k];
                proof {
                    assert(idx < c < self.map.corridor_tree.nodes@.len());
                }
                let ghost m_pre = self.map;
                self.iterate_node(c, 0);
                proof {
                    lemma_phase3_trans(old(self).map, m_pre, self.map, cs);
                    let tp = m_pre.corridor_tree;
                    assert forall|kk: int| 0 <= kk < k + 1 implies no_disposable_in(
                        self.map,
                        cs,
                        pl,
                        #[trigger] children@[kk] as int,
                        0,
                    ) by {
                        if children@[kk] == c {
                            assert(no_disposable_in(self.map, cs, pl, c as int, 0));
                        } else {
                            let r = children@[kk] as int;
                            assert(tp.nodes@[r].parent == Some(idx));
                            assert(tp.nodes@[c as int].parent == Some(idx));
                            assert forall|j: int|
                                0 <= j < tp.nodes@.len() && crate::corridor_tree::in_subtree(
                                    tp,
                                    r,
                                    j,
                                ) implies !crate::corridor_tree::in_subtree(tp, c as int, j)
                                && (tp.nodes@[c as int].parent matches Some(pq) ==> pq as int
                                != j) by {
                                lemma_sibling_disjoint(tp, r, c as int, j);
                                crate::corridor_tree::lemma_subtree_ge(tp, r, j);
                                assert(idx < children@[kk]);
                                assert(j >= r);
                                assert(j > idx);
                                assert(j != idx);
                                assert(tp.nodes@[c as int].parent == Some(idx));
                            }
                            lemma_no_disposable_other(m_pre, self.map, cs, pl, r, 0, c as int);
                        }
                    }
                    assert forall|j: int, v: usize|
                        #![trigger t_old.nodes@[j].children@.contains(v)]
                        0 <= j < t_old.nodes@.len() && t_old.nodes@[j].children@.contains(v)
                            && !self.map.corridor_tree.nodes@[j].children@.contains(v) implies
                        crate::corridor_tree::in_subtree(t_old, idx as int, v as int) by {
                        if tp.nodes@[j].children@.contains(v) {
                            assert(crate::corridor_tree::in_subtree(tp, c as int, v as int));
                            assert(t_old.node_wf(j));
                            crate::corridor_tree::lemma_chain_same(t_old, tp, c as int, v as int);
                            crate::corridor_tree::lemma_subtree_trans(
                                t_old,
                                idx as int,
                                c as int,
                                v as int,
                            );
                        }
                    }
                    assert forall|j: int|
                        0 <= j < t_old.nodes@.len() && !crate::corridor_tree::in_subtree(
                            t_old,
                            idx as int,
                            j,
                        ) implies #[trigger] self.map.corridor_tree.nodes@[j].children
                        == t_old.nodes@[j].children by {
                        assert(!crate::corridor_tree::in_subtree(tp, c as int, j)) by {
                            if crate::corridor_tree::in_subtree(tp, c as int, j) {
                                crate::corridor_tree::lemma_chain_same(t_old, tp, c as int, j);
                                crate::corridor_tree::lemma_subtree_trans(
                                    t_old,
                                    idx as int,
                                    c as int,
                                    j,
                                );
                            }
                        }
                        assert(crate::corridor_tree::in_subtree(t_old, idx as int, idx as int));
                        assert(j != idx);
                        assert(tp.nodes@[c as int].parent == t_old.nodes@[c as int].parent);
                        assert(t_old.nodes@[c as int].parent == Some(idx));
                        assert(tp.nodes@[c as int].parent matches Some(pq) ==> pq as int != j);
                        assert(self.map.corridor_tree.nodes@[j].children
                            == tp.nodes@[j].children);
                    }
                }
                k += 1;
            }
        } else if n_start == 1 {
            // A continuation of the stretch.
            let c = children[0];
            proof {
                assert(idx < c < self.map.corridor_tree.nodes@.len());
            }
            let ghost m_pre = self.map;
            self.iterate_node(c, count + 1);
            proof {
                lemma_phase3_trans(old(self).map, m_pre, self.map, cs);
                let tp = m_pre.corridor_tree;
                assert(no_disposable_in(self.map, cs, pl, c as int, count as int + 1));
                assert forall|j: int, v: usize|
                    #![trigger t_old.nodes@[j].children@.contains(v)]
                    0 <= j < t_old.nodes@.len() && t_old.nodes@[j].children@.contains(v)
                        && !self.map.corridor_tree.nodes@[j].children@.contains(v) implies
                    crate::corridor_tree::in_subtree(t_old, idx as int, v as int) by {
                    assert(t_old.node_wf(j));
                    crate::corridor_tree::lemma_chain_same(t_old, tp, c as int, v as int);
                    crate::corridor_tree::lemma_subtree_trans(
                        t_old,
                        idx as int,
                        c as int,
                        v as int,
                    );
                }
                assert forall|j: int|
                    0 <= j < t_old.nodes@.len() && !crate::corridor_tree::in_subtree(
                        t_old,
                        idx as int,
                        j,
                    ) implies #[trigger] self.map.corridor_tree.nodes@[j].children
                    == t_old.nodes@[j].children by {
                    assert(!crate::corridor_tree::in_subtree(tp, c as int, j)) by {
                        if crate::corridor_tree::in_subtree(tp, c as int, j) {
                            crate::corridor_tree::lemma_chain_same(t_old, tp, c as int, j);
                            crate::corridor_tree::lemma_subtree_trans(
                                t_old,
                                idx as int,
                                c as int,
                                j,
                            );
                        }
                    }
                    assert(crate::corridor_tree::in_subtree(t_old, idx as int, idx as int));
                    assert(j != idx);
                    assert(tp.nodes@[c as int].parent == t_old.nodes@[c as int].parent);
                    assert(t_old.nodes@[c as int].parent == Some(idx));
                    assert(tp.nodes@[c as int].parent matches Some(pq) ==> pq as int != j);
                }
            }
        }
        // Re-read the live child list: a node whose children were all
        // pruned away is itself a leaf now.
        let ghost s_mid = *self;
        proof {
            assert forall|kk: int| 0 <= kk < children@.len() implies no_disposable_in(
                s_mid.map,
                cs,
                pl,
                #[trigger] children@[kk] as int,
                c_sub,
            ) by {
            }
        }
        self.check_and_prune(idx, count);
        proof {
            let t_fin = self.map.corridor_tree;
            assert(phase3_step(s_mid.map, self.map, cs));
            // The children stay cleared: the check rewires nothing of
            // their subtrees.
            assert forall|kk: int| 0 <= kk < children@.len() implies no_disposable_in(
                self.map,
                cs,
                pl,
                #[trigger] children@[kk] as int,
                c_sub,
            ) by {
                let r = children@[kk] as int;
                assert(s_mid.map.corridor_tree.node_wf(idx as int));
                assert forall|j2: int|
                    0 <= j2 < s_mid.map.corridor_tree.nodes@.len()
                        && crate::corridor_tree::in_subtree(s_mid.map.corridor_tree, r, j2)
                    implies #[trigger] self.map.corridor_tree.nodes@[j2].children
                    == s_mid.map.corridor_tree.nodes@[j2].children by {
                    crate::corridor_tree::lemma_subtree_ge(s_mid.map.corridor_tree, r, j2);
                    assert(idx < children@[kk]);
                    assert(j2 > idx);
                }
                lemma_phase3_conn_same(s_mid.map, self.map, cs);
                lemma_no_disposable_stable(s_mid.map, self.map, cs, pl, r, c_sub);
            }
            // Detachments stay inside this subtree; lists outside it, but
            // for the parent's own, are untouched.
            assert forall|j: int, v: usize|
                #![trigger t_old.nodes@[j].children@.contains(v)]
                0 <= j < t_old.nodes@.len() && t_old.nodes@[j].children@.contains(v)
                    && !t_fin.nodes@[j].children@.contains(v) implies
                crate::corridor_tree::in_subtree(t_old, idx as int, v as int) by {
                if s_mid.map.corridor_tree.nodes@[j].children@.contains(v) {
                    assert(v == idx);
                    assert(crate::corridor_tree::in_subtree(t_old, idx as int, idx as int));
                }
            }
            assert forall|j: int|
                0 <= j < t_old.nodes@.len() && !crate::corridor_tree::in_subtree(
                    t_old,
                    idx as int,
                    j,
                ) && (t_old.nodes@[idx as int].parent matches Some(pq) ==> pq as int != j)
                implies #[trigger] t_fin.nodes@[j].children == t_old.nodes@[j].children by {
                assert(s_mid.map.corridor_tree.nodes@[j].children == t_old.nodes@[j].children);
                assert(s_mid.map.corridor_tree.nodes@[idx as int].parent
                    == t_old.nodes@[idx as int].parent);
            }
            // No disposable leaf survives anywhere in this subtree.
            assert(children@ == t_old.nodes@[idx as int].children@);
            assert(phase3_step(old(self).map, s_mid.map, cs));
            lemma_phase3_trans(old(self).map, s_mid.map, self.map, cs);
            lemma_assemble_no_disposable(old(self).map, self.map, cs, pl, idx, count, c_sub);
        }
    }

    /// The node's own check at the end of its walk: a childless node
    /// below the prune threshold, with no `Connection` cell in or around
    /// its footprint and a parent to hang from, is erased on the edge
    /// facing away from that parent and detached from its child list; any
    /// other node is left untouched.
    #[verifier::rlimit(100)]
    fn check_and_prune(&mut self, idx: usize, count: usize)
        requires
            old(self).wf(),
            idx < old(self).map.corridor_tree.nodes@.len(),
        ensures
            final(self).wf(),
            final(self).margins == old(self).margins,
            final(self).corridor_size == old(self).corridor_size,
            final(self).prune_length == old(self).prune_length,
            phase3_step(old(self).map, final(self).map, old(self).corridor_size),
            forall|j: int, v: usize|
                #![trigger old(self).map.corridor_tree.nodes@[j].children@.contains(v)]
                0 <= j < old(self).map.corridor_tree.nodes@.len()
                    && old(self).map.corridor_tree.nodes@[j].children@.contains(v)
                    && !final(self).map.corridor_tree.nodes@[j].children@.contains(v) ==> v == idx,
            forall|j: int|
                0 <= j < old(self).map.corridor_tree.nodes@.len()
                    && (old(self).map.corridor_tree.nodes@[idx as int].parent matches Some(pq)
                    ==> pq as int != j)
                    ==> #[trigger] final(self).map.corridor_tree.nodes@[j].children
                    == old(self).map.corridor_tree.nodes@[j].children,
            ({
                let t = final(self).map.corridor_tree;
                &&& t.nodes@[idx as int].children@.len() == 0
                &&& count < old(self).prune_length
                &&& t.nodes@[idx as int].parent is Some
                &&& no_connection_around(
                    final(self).map,
                    t.nodes@[idx as int].x as int,
                    t.nodes@[idx as int].y as int,
                    old(self).corridor_size,
                )
            }) ==> ({
                let t = final(self).map.corridor_tree;
                let p = t.nodes@[idx as int].parent.unwrap();
                &&& !t.nodes@[p as int].children@.contains(idx)
                &&& away_edge_removed(
                    final(self).map,
                    t.nodes@[idx as int].x as int,
                    t.nodes@[idx as int].y as int,
                    t.nodes@[p as int].x as int,
                    t.nodes@[p as int].y as int,
                    old(self).corridor_size,
                )
            }),
    {
        let ghost cs = old(self).corridor_size;
        let ghost mg_here = old(self).margins;
        let live = self.map.corridor_tree.nodes[idx].children.len();
        let node_x = self.map.corridor_tree.nodes[idx].x;
        let node_y = self.map.corridor_tree.nodes[idx].y;
        let csw = self.corridor_size.0;
        let csh = self.corridor_size.1;
        let has_conn = rect_has_connection(
            &self.map,
            node_x as i32 - 1,
            node_y as i32 - 1,
            csw as u16 + 2,
            csh as u16 + 2,
        );
        let parent = crate::corridor_tree::get_parent(&self.map.corridor_tree, idx);
        let ghost mut pruned = false;
        if live == 0 && count < self.prune_length as usize {
            if !has_conn {
                match parent {
                    Some(p) => {
                        proof {
                            pruned = true;
                        }
                        proof {
                            assert(self.map.corridor_tree.node_wf(idx as int));
                            assert(p < self.map.corridor_tree.nodes@.len());
                        }
                        let px = self.map.corridor_tree.nodes[p].x;
                        let py = self.map.corridor_tree.nodes[p].y;
                        let ghost pre_erase = self.map;
                        // Erase only the edge of the footprint facing away
                        // from the parent.
                        if px < node_x {
                            self.map.set_rect(
                                Cell::Removed,
                                node_x + csw as u16 - 1,
                                node_y,
                                1,
                                csh as u16,
                            );
                        } else if px > node_x {
                            self.map.set_rect(Cell::Removed, node_x, node_y, 1, csh as u16);
                        } else if py < node_y {
                            self.map.set_rect(
                                Cell::Removed,
                                node_x,
                                node_y + csh as u16 - 1,
                                csw as u16,
                                1,
                            );
                        } else {
                            self.map.set_rect(Cell::Removed, node_x, node_y, csw as u16, 1);
                        }
                        proof {
                            CellMatrix::lemma_sections_valid_cells(pre_erase, self.map);
                            // The erased edge lies inside the node's
                            // footprint, which holds only carved ground.
                            assert(old(self).map.corridor_tree.nodes@[idx as int].x == node_x
                                && old(self).map.corridor_tree.nodes@[idx as int].y == node_y);
                            assert forall|a: int, b: int|
                                #[trigger] self.map.cell_at(a, b) == pre_erase.cell_at(a, b) || (
                            self.map.cell_at(a, b) is Removed && (pre_erase.cell_at(a, b)
                                is Corridor || pre_erase.cell_at(a, b) is Removed)) by {
                                if self.map.cell_at(a, b) != pre_erase.cell_at(a, b) {
                                    assert(node_x <= a < node_x + cs.0 && node_y <= b < node_y
                                        + cs.1);
                                    assert(old(self).map.cell_at(a, b) is Corridor
                                        || old(self).map.cell_at(a, b) is Removed);
                                }
                            }
                        }
                        let ghost pre_detach = self.map;
                        crate::corridor_tree::remove_node(&mut self.map.corridor_tree, idx);
                        proof {
                            crate::labyrinth_generator::lemma_same_cells(pre_detach, self.map);
                            crate::labyrinth_generator::lemma_sections_valid_same(
                                pre_detach,
                                self.map,
                            );
                            assert forall|i: int|
                                0 <= i < self.map.corridor_tree.nodes@.len() implies (
                            #[trigger] self.map.corridor_tree.nodes@[i]).x + self.corridor_size.0
                                <= self.map.width && self.map.corridor_tree.nodes@[i].y
                                + self.corridor_size.1 <= self.map.height by {
                                assert(pre_detach.corridor_tree.nodes@[i].x
                                    == self.map.corridor_tree.nodes@[i].x
                                    && pre_detach.corridor_tree.nodes@[i].y
                                    == self.map.corridor_tree.nodes@[i].y);
                            }
                            let q = pre_detach.corridor_tree.nodes@[idx as int].parent.unwrap();
                            assert(q == p);
                            broadcast use vstd::seq_lib::group_filter_ensures;

                            assert forall|i: int, v: usize|
                                #![trigger self.map.corridor_tree.nodes@[i].children@.contains(v)]
                                0 <= i < pre_detach.corridor_tree.nodes@.len()
                                    && self.map.corridor_tree.nodes@[i].children@.contains(v)
                                implies pre_detach.corridor_tree.nodes@[i].children@.contains(
                                v,
                            ) by {
                                if i == p as int {
                                    let t = choose|t: int|
                                        0 <= t
                                            < self.map.corridor_tree.nodes@[i].children@.len()
                                            && self.map.corridor_tree.nodes@[i].children@[t] == v;
                                }
                            }
                            assert forall|i: int, v: usize|
                                #![trigger pre_detach.corridor_tree.nodes@[i].children@.contains(v)]
                                0 <= i < pre_detach.corridor_tree.nodes@.len()
                                    && pre_detach.corridor_tree.nodes@[i].children@.contains(v)
                                    && !self.map.corridor_tree.nodes@[i].children@.contains(v)
                                implies {
                                &&& v < self.map.corridor_tree.nodes@.len()
                                &&& self.map.corridor_tree.nodes@[v as int].children@.len() == 0
                                &&& no_connection_around(
                                    self.map,
                                    self.map.corridor_tree.nodes@[v as int].x as int,
                                    self.map.corridor_tree.nodes@[v as int].y as int,
                                    cs,
                                )
                            } by {
                                assert(pre_detach.corridor_tree.node_wf(i));
                                if i != p as int || v != idx {
                                    if i == p as int {
                                        let t = choose|t: int|
                                            0 <= t
                                                < pre_detach.corridor_tree.nodes@[i].children@.len()
                                                && pre_detach.corridor_tree.nodes@[i].children@[t]
                                                == v;
                                        assert(pre_detach.corridor_tree.nodes@[i].children@.filter(
                                            |c2: usize| c2 != idx,
                                        ).contains(v));
                                        assert(false);
                                    } else {
                                        assert(self.map.corridor_tree.nodes@[i]
                                            == pre_detach.corridor_tree.nodes@[i]);
                                        assert(false);
                                    }
                                } else {
                                    assert(self.map.corridor_tree.nodes@[idx as int].children@.len()
                                        == 0);
                                    assert forall|a: int, b: int|
                                        node_x - 1 <= a < node_x + cs.0 + 1 && node_y - 1 <= b
                                            < node_y + cs.1 + 1 implies !((
                                    #[trigger] self.map.cell_at(a, b)) is Connection) by {
                                        assert(!(pre_erase.cell_at(a, b) is Connection));
                                    }
                                }
                            }
                            assert(phase3_step(pre_erase, self.map, cs));
                            lemma_phase3_trans(old(self).map, pre_erase, self.map, cs);
                            // Well-formedness survives the erase and the
                            // detachment.
                            assert(self.footprints_ok()) by {
                                assert forall|i2: int, a: int, b: int|
                                    #![trigger self.map.corridor_tree.nodes@[i2], self.map.cell_at(a, b)]
                                    0 <= i2 < self.map.corridor_tree.nodes@.len()
                                        && self.map.corridor_tree.nodes@[i2].x <= a
                                        < self.map.corridor_tree.nodes@[i2].x
                                        + self.corridor_size.0
                                        && self.map.corridor_tree.nodes@[i2].y <= b
                                        < self.map.corridor_tree.nodes@[i2].y
                                        + self.corridor_size.1 implies (self.map.cell_at(a, b)
                                    is Corridor || self.map.cell_at(a, b) is Removed) by {
                                    assert(old(self).map.corridor_tree.nodes@[i2].x
                                        == self.map.corridor_tree.nodes@[i2].x
                                        && old(self).map.corridor_tree.nodes@[i2].y
                                        == self.map.corridor_tree.nodes@[i2].y);
                                    assert(old(self).map.cell_at(a, b) is Corridor
                                        || old(self).map.cell_at(a, b) is Removed);
                                    assert(self.map.cell_at(a, b) == pre_detach.cell_at(a, b));
                                }
                            }
                            assert(crate::corridor_tree::detached_closed(
                                self.map.corridor_tree,
                            )) by {
                                assert(pre_detach.corridor_tree == old(self).map.corridor_tree);
                                assert forall|i2: int|
                                    0 <= i2 < self.map.corridor_tree.nodes@.len() implies ((
                                #[trigger] self.map.corridor_tree.nodes@[i2]).parent matches Some(
                                    q,
                                ) ==> (self.map.corridor_tree.nodes@[q as int].children@.contains(
                                    i2 as usize,
                                ) || self.map.corridor_tree.nodes@[i2].children@.len() == 0)) by {
                                    if i2 == idx as int {
                                        assert(pre_detach.corridor_tree.nodes@[
                                            idx as int
                                        ].children@.len() == 0);
                                        assert(self.map.corridor_tree.nodes@[
                                            idx as int
                                        ].children@.len() == 0);
                                    } else {
                                        assert(pre_detach.corridor_tree.nodes@[i2].parent
                                            matches Some(q) ==> (pre_detach.corridor_tree.nodes@[
                                            q as int
                                        ].children@.contains(i2 as usize)
                                            || pre_detach.corridor_tree.nodes@[i2].children@.len()
                                            == 0));
                                        match pre_detach.corridor_tree.nodes@[i2].parent {
                                            Some(q) => {
                                                assert(pre_detach.corridor_tree.node_wf(i2));
                                                assert(0 <= q < i2);
                                                assert(self.map.corridor_tree.nodes@[i2].children
                                                    == pre_detach.corridor_tree.nodes@[i2].children
                                                    || i2 == p as int);
                                                if q != p {
                                                    assert(self.map.corridor_tree.nodes@[
                                                        q as int
                                                    ].children
                                                        == pre_detach.corridor_tree.nodes@[
                                                        q as int
                                                    ].children);
                                                }
                                                if i2 == p as int
                                                    && pre_detach.corridor_tree.nodes@[
                                                    i2
                                                ].children@.len() == 0 {
                                                    assert(pre_detach.corridor_tree.nodes@[
                                                        p as int
                                                    ].children@.filter(|c2: usize| c2 != idx).len()
                                                        <= 0);
                                                }
                                                if q == p && pre_detach.corridor_tree.nodes@[
                                                    q as int
                                                ].children@.contains(i2 as usize) {
                                                    assert(vstd::std_specs::vec::spec_vec_len(
                                                        &self.map.corridor_tree.nodes,
                                                    ) == self.map.corridor_tree.nodes@.len());
                                                    assert(i2 <= usize::MAX as int);
                                                    assert((i2 as usize) != idx);
                                                    let lst = pre_detach.corridor_tree.nodes@[
                                                        p as int
                                                    ].children@;
                                                    let tix = choose|tix: int|
                                                        0 <= tix < lst.len() && lst[tix] == (
                                                        i2 as usize);
                                                    assert(0 <= tix < lst.len() && lst[tix] == (
                                                    i2 as usize));
                                                    lst.lemma_filter_contains(
                                                        |c2: usize| c2 != idx,
                                                        tix,
                                                    );
                                                    assert(self.map.corridor_tree.nodes@[
                                                        q as int
                                                    ].children@.contains(i2 as usize));
                                                }
                                            },
                                            None => {},
                                        }
                                    }
                                }
                            }
                            assert forall|j2: int, k2: int|
                                0 <= j2 < self.map.section_vec@.len() && 0 <= k2
                                    < self.map.section_vec@[j2].connections@.len() implies
                                conn_valid(
                                self.map,
                                #[trigger] self.map.section_vec@[j2].connections@[k2],
                                cs,
                                mg_here,
                            ) by {
                                let e = self.map.section_vec@[j2].connections@[k2];
                                assert(pre_erase.section_vec@[j2].connections@[k2] == e);
                                assert(conn_valid(pre_erase, e, cs, mg_here));
                                assert forall|a: int, b: int|
                                    e.x <= a < e.x + conn_rect_w(e, cs, mg_here) && e.y <= b < e.y
                                        + conn_rect_h(e, cs, mg_here) implies ((
                                #[trigger] self.map.cell_at(a, b)) is Rock || self.map.cell_at(
                                    a,
                                    b,
                                ) is Connection) by {
                                    assert(pre_erase.cell_at(a, b) is Rock || pre_erase.cell_at(
                                        a,
                                        b,
                                    ) is Connection);
                                    if self.map.cell_at(a, b) != pre_erase.cell_at(a, b) {
                                        assert(pre_erase.cell_at(a, b) is Corridor
                                            || pre_erase.cell_at(a, b) is Removed);
                                        assert(false);
                                    }
                                }
                            }
                            // The away-facing edge is erased and the leaf
                            // detached.
                            assert(self.map.corridor_tree.nodes@[p as int].x == px
                                && self.map.corridor_tree.nodes@[p as int].y == py);
                            assert(away_edge_removed(
                                self.map,
                                node_x as int,
                                node_y as int,
                                px as int,
                                py as int,
                                cs,
                            ));
                            assert(!self.map.corridor_tree.nodes@[p as int].children@.contains(
                                idx,
                            )) by {
                                if self.map.corridor_tree.nodes@[p as int].children@.contains(
                                    idx,
                                ) {
                                    assert(pre_detach.corridor_tree.nodes@[
                                        p as int
                                    ].children@.filter(|c2: usize| c2 != idx).contains(idx));
                                }
                            }
                        }
                    },
                    None => {},
                }
            }
        }
        proof {
            let t_fin = self.map.corridor_tree;
            broadcast use vstd::seq_lib::group_filter_ensures;

            if !pruned {
                assert(*self == *old(self));
            }
            assert(t_fin.nodes@[idx as int].x == node_x && t_fin.nodes@[idx as int].y == node_y);
            assert(t_fin.nodes@[idx as int].parent == parent);
            // The leaf's own fate: disposable means erased and detached.
            if t_fin.nodes@[idx as int].children@.len() == 0 && count < old(self).prune_length
                && t_fin.nodes@[idx as int].parent is Some && no_connection_around(
                self.map,
                t_fin.nodes@[idx as int].x as int,
                t_fin.nodes@[idx as int].y as int,
                cs,
            ) {
                if pruned {
                } else {
                    assert(*self == *old(self));
                    assert(t_fin.nodes@[idx as int].children@.len() == live);
                    if live == 0 && count < old(self).prune_length {
                        if !has_conn {
                            assert(parent is None);
                            assert(false);
                        } else {
                            let (wa, wb) = choose|a: int, b: int|
                                node_x - 1 <= a < node_x - 1 + (csw + 2) && node_y - 1 <= b
                                    < node_y - 1 + (csh + 2) && (#[trigger] self.map.cell_at(
                                    a,
                                    b,
                                )) is Connection;
                            assert(!(self.map.cell_at(wa, wb) is Connection));
                            assert(false);
                        }
                    } else {
                        assert(false);
                    }
                }
            }
            // At most this node came loose, and only its parent's child
            // list changed.
            assert forall|j: int, v: usize|
                #![trigger old(self).map.corridor_tree.nodes@[j].children@.contains(v)]
                0 <= j < old(self).map.corridor_tree.nodes@.len()
                    && old(self).map.corridor_tree.nodes@[j].children@.contains(v)
                    && !t_fin.nodes@[j].children@.contains(v) implies v == idx by {
                if !pruned {
                    assert(*self == *old(self));
                }
                if pruned && v != idx {
                    let pp = parent.unwrap() as int;
                    if j != pp {
                        assert(t_fin.nodes@[j].children
                            == old(self).map.corridor_tree.nodes@[j].children);
                    } else {
                        let lst = old(self).map.corridor_tree.nodes@[pp].children@;
                        let tix = choose|tix: int| 0 <= tix < lst.len() && lst[tix] == v;
                        lst.lemma_filter_contains(|c2: usize| c2 != idx, tix);
                    }
                    assert(t_fin.nodes@[j].children@.contains(v));
                    assert(false);
                }
            }
            assert forall|j: int|
                0 <= j < old(self).map.corridor_tree.nodes@.len()
                    && (old(self).map.corridor_tree.nodes@[idx as int].parent matches Some(pq)
                    ==> pq as int != j)
                implies #[trigger] t_fin.nodes@[j].children
                == old(self).map.corridor_tree.nodes@[j].children by {
                if pruned {
                    assert(parent == old(self).map.corridor_tree.nodes@[idx as int].parent);
                    assert(j != parent.unwrap() as int);
                } else {
                    assert(*self == *old(self));
                }
            }
        }
    }


    /// Run the whole merge: discover gaps, open a spanning set of
    /// connections from the root section, prune dead-end corridor stubs,
    /// and hand the map back. Section ids move only toward the root's id;
    /// every connection entry records a gap of the incoming map; the grid
    /// changes only by opening rock inside recorded connection rectangles
    /// and erasing carved ground on pruned corridor edges; only childless
    /// leaves with no adjacent `Connection` cell are detached from the
    /// corridor forest, and no disposable leaf survives under any root.
    #[verifier::loop_isolation(false)]
    #[verifier::rlimit(100)]
    pub fn generate(self) -> (m: CellMatrix)
        requires
            self.wf(),
        ensures
            m.dims_ok(),
            m.sections_valid(),
            m.corridor_tree.wf(),
            m.width == self.map.width,
            m.height == self.map.height,
            m.room_vec == self.map.room_vec,
            m.corridor_vec == self.map.corridor_vec,
            m.section_vec@.len() == self.map.section_vec@.len(),
            m.corridor_tree.nodes@.len() == self.map.corridor_tree.nodes@.len(),
            m.corridor_tree.roots@ == self.map.corridor_tree.roots@,
            forall|j: int|
                0 <= j < m.section_vec@.len() ==> ((#[trigger] m.section_vec@[j]).id
                    == self.map.section_vec@[j].id || (self.map.section_vec@.len() > 0
                    && m.section_vec@[j].id == self.map.section_vec@[0].id)),
            forall|j: int|
                0 <= j < m.section_vec@.len() ==> self.map.section_vec@[j].connections@.len() <= (
                #[trigger] m.section_vec@[j]).connections@.len(),
            forall|j: int, k: int|
                0 <= j < m.section_vec@.len() && 0 <= k
                    < self.map.section_vec@[j].connections@.len()
                    ==> #[trigger] m.section_vec@[j].connections@[k]
                    == self.map.section_vec@[j].connections@[k],
            new_conns_recorded(self.map, self.map, m, self.corridor_size, self.margins),
            forall|a: int, b: int|
                0 <= a < self.map.width as int && 0 <= b < self.map.height as int
                    ==> #[trigger] h_gap_recorded_in(
                    self.map,
                    m,
                    self.corridor_size,
                    self.margins,
                    a,
                    b,
                ),
            forall|a: int, b: int|
                0 <= a < self.map.width as int && 0 <= b < self.map.height as int
                    ==> #[trigger] v_gap_recorded_in(
                    self.map,
                    m,
                    self.corridor_size,
                    self.margins,
                    a,
                    b,
                ),
            forall|a: int, b: int|
                #[trigger] m.cell_at(a, b) == self.map.cell_at(a, b) || (self.map.cell_at(a, b)
                    is Rock && m.cell_at(a, b) is Connection && in_some_conn_rect(
                    m,
                    self.corridor_size,
                    self.margins,
                    a,
                    b,
                )) || ((self.map.cell_at(a, b) is Corridor || self.map.cell_at(a, b) is Removed)
                    && m.cell_at(a, b) is Removed),
            forall|i: int, v: usize|
                #![trigger self.map.corridor_tree.nodes@[i].children@.contains(v)]
                0 <= i < self.map.corridor_tree.nodes@.len()
                    && self.map.corridor_tree.nodes@[i].children@.contains(v)
                    && !m.corridor_tree.nodes@[i].children@.contains(v) ==> {
                    &&& v < m.corridor_tree.nodes@.len()
                    &&& m.corridor_tree.nodes@[v as int].children@.len() == 0
                    &&& no_connection_around(
                        m,
                        m.corridor_tree.nodes@[v as int].x as int,
                        m.corridor_tree.nodes@[v as int].y as int,
                        self.corridor_size,
                    )
                },
            ids_identity(self.map) ==> root_neighbors_merged(m),
            forall|r: int|
                0 <= r < m.corridor_tree.roots@.len() ==> no_disposable_in(
                    m,
                    self.corridor_size,
                    self.prune_length,
                    (#[trigger] m.corridor_tree.roots@[r]) as int,
                    0,
                ),
    {
        let cs = self.corridor_size;
        let mg = self.margins;
        let mut this = self;
        this.discover_connections();
        let ghost s1 = this;
        this.connect_sections();
        let ghost s2 = this;
        this.prune();
        proof {
            // New entries were all added by discovery against the incoming
            // map; the later phases keep every connection list.
            assert forall|j: int, k: int|
                0 <= j < this.map.section_vec@.len() && j < self.map.section_vec@.len()
                    && self.map.section_vec@[j].connections@.len() <= k
                    < this.map.section_vec@[j].connections@.len() implies recorded_conn(
                self.map,
                cs,
                mg,
                j as usize,
                #[trigger] this.map.section_vec@[j].connections@[k],
            ) by {
                assert(s2.map.section_vec@[j] == this.map.section_vec@[j]);
                assert(s2.map.section_vec@[j].connections == s1.map.section_vec@[j].connections);
                assert(this.map.section_vec@[j].connections@[k]
                    == s1.map.section_vec@[j].connections@[k]);
            }
            // Grid changes: connections were opened against the
            // post-discovery lists, which the final map still holds.
            crate::labyrinth_generator::lemma_same_cells(self.map, s1.map);
            assert forall|a: int, b: int|
                #[trigger] this.map.cell_at(a, b) == self.map.cell_at(a, b) || (self.map.cell_at(
                a,
                b,
            ) is Rock && this.map.cell_at(a, b) is Connection && in_some_conn_rect(
                this.map,
                cs,
                mg,
                a,
                b,
            )) || ((self.map.cell_at(a, b) is Corridor || self.map.cell_at(a, b) is Removed)
                && this.map.cell_at(a, b) is Removed) by {
                if this.map.cell_at(a, b) != s2.map.cell_at(a, b) {
                    assert(this.map.cell_at(a, b) is Removed);
                    assert(s2.map.cell_at(a, b) is Corridor || s2.map.cell_at(a, b) is Removed);
                    if s2.map.cell_at(a, b) != s1.map.cell_at(a, b) {
                        assert(s2.map.cell_at(a, b) is Connection);
                        assert(false);
                    }
                    assert(s1.map.cell_at(a, b) == self.map.cell_at(a, b));
                } else if s2.map.cell_at(a, b) != s1.map.cell_at(a, b) {
                    assert(s1.map.cell_at(a, b) is Rock);
                    assert(s1.map.cell_at(a, b) == self.map.cell_at(a, b));
                    let (j, k) = choose|j: int, k: int|
                        #![trigger s1.map.section_vec@[j].connections@[k]]
                        0 <= j < s1.map.section_vec@.len() && 0 <= k
                            < s1.map.section_vec@[j].connections@.len() && {
                            let c = s1.map.section_vec@[j].connections@[k];
                            c.x <= a < c.x + conn_rect_w(c, cs, mg) && c.y <= b < c.y
                                + conn_rect_h(c, cs, mg)
                        };
                    assert(this.map.section_vec@[j].connections@[k]
                        == s1.map.section_vec@[j].connections@[k]);
                } else {
                    assert(s1.map.cell_at(a, b) == self.map.cell_at(a, b));
                }
            }
            // From freshly numbered sections, the pass leaves every
            // neighbor of the root carrying the root's id.
            if ids_identity(self.map) {
                assert(ids_identity(s1.map));
                assert(root_neighbors_merged(this.map)) by {
                    if this.map.section_vec@.len() > 0 {
                        assert forall|k: int|
                            0 <= k < this.map.section_vec@[0].connections@.len() implies
                            this.map.section_vec@[(
                        #[trigger] this.map.section_vec@[0].connections@[k]).id as int].id
                            == this.map.section_vec@[0].id by {
                            assert(s2.map.section_vec@[0].connections
                                == s1.map.section_vec@[0].connections);
                            assert(this.map.section_vec@[0] == s2.map.section_vec@[0]);
                            let e = s1.map.section_vec@[0].connections@[k];
                            assert(this.map.section_vec@[0].connections@[k] == e);
                            assert(s2.map.section_vec@[e.id as int].id == s1.map.section_vec@[0].id);
                            assert(s1.map.section_vec@[0].id == 0);
                            assert(this.map.section_vec@[e.id as int]
                                == s2.map.section_vec@[e.id as int]);
                            assert(s2.map.section_vec@[0].id == 0);
                        }
                    }
                }
            }
            // Detachments all happen in the pruning phase, whose tree is
            // still the incoming one.
            assert(s2.map.corridor_tree == self.map.corridor_tree);
            // The discovered entries survive the later phases, whose
            // connection lists never change.
            assert forall|a: int, b: int|
                0 <= a < self.map.width as int && 0 <= b < self.map.height as int implies
                #[trigger] h_gap_recorded_in(
                self.map,
                this.map,
                self.corridor_size,
                self.margins,
                a,
                b,
            ) by {
                assert(h_gap_recorded_in(self.map, s1.map, cs, mg, a, b));
                let w = self.map.width as int;
                let h = self.map.height as int;
                if h_gap_at(self.map, cs, mg, a, b) {
                    lemma_owned_in_bounds(self.map, a - cs.0, b);
                    crate::cell_matrix::lemma_grid_index(w, h, a - cs.0, b);
                    assert(self.map.tag_valid(self.map.cell_vector@[b * w + (a - cs.0)]));
                    lemma_owned_in_bounds(self.map, a + mg.0, b);
                    crate::cell_matrix::lemma_grid_index(w, h, a + mg.0, b);
                    assert(self.map.tag_valid(self.map.cell_vector@[b * w + (a + mg.0)]));
                    let li = h_left(self.map, cs, a, b).unwrap() as int;
                    let ri = h_right(self.map, mg, a, b).unwrap() as int;
                    assert(s2.map.section_vec@[li] == this.map.section_vec@[li]);
                    assert(s2.map.section_vec@[li].connections
                        == s1.map.section_vec@[li].connections);
                    assert(s2.map.section_vec@[ri] == this.map.section_vec@[ri]);
                    assert(s2.map.section_vec@[ri].connections
                        == s1.map.section_vec@[ri].connections);
                }
            }
            assert forall|a: int, b: int|
                0 <= a < self.map.width as int && 0 <= b < self.map.height as int implies
                #[trigger] v_gap_recorded_in(
                self.map,
                this.map,
                self.corridor_size,
                self.margins,
                a,
                b,
            ) by {
                assert(v_gap_recorded_in(self.map, s1.map, cs, mg, a, b));
                let w = self.map.width as int;
                let h = self.map.height as int;
                if v_gap_at(self.map, cs, mg, a, b) {
                    lemma_owned_in_bounds(self.map, a, b - cs.1);
                    crate::cell_matrix::lemma_grid_index(w, h, a, b - cs.1);
                    assert(self.map.tag_valid(self.map.cell_vector@[(b - cs.1) * w + a]));
                    lemma_owned_in_bounds(self.map, a, b + mg.1);
                    crate::cell_matrix::lemma_grid_index(w, h, a, b + mg.1);
                    assert(self.map.tag_valid(self.map.cell_vector@[(b + mg.1) * w + a]));
                    let ti = v_top(self.map, cs, a, b).unwrap() as int;
                    let bi = v_bottom(self.map, mg, a, b).unwrap() as int;
                    assert(s2.map.section_vec@[ti] == this.map.section_vec@[ti]);
                    assert(s2.map.section_vec@[ti].connections
                        == s1.map.section_vec@[ti].connections);
                    assert(s2.map.section_vec@[bi] == this.map.section_vec@[bi]);
                    assert(s2.map.section_vec@[bi].connections
                        == s1.map.section_vec@[bi].connections);
                }
            }
        }
        this.map
    }

    /// Phase 3: prune every carving run's tree, starting each root with a
    /// fresh branch depth. Afterwards no disposable leaf survives under
    /// any root: every childless node within the prune threshold of its
    /// root, with no `Connection` cell in or around its footprint, has
    /// been detached from its parent's child list.
    #[verifier::loop_isolation(false)]
    pub fn prune(&mut self)
        requires
            old(self).wf(),
        ensures
            final(self).wf(),
            final(self).margins == old(self).margins,
            final(self).corridor_size == old(self).corridor_size,
            final(self).prune_length == old(self).prune_length,
            phase3_step(old(self).map, final(self).map, old(self).corridor_size),
            forall|r: int|
                0 <= r < final(self).map.corridor_tree.roots@.len() ==> no_disposable_in(
                    final(self).map,
                    old(self).corridor_size,
                    old(self).prune_length,
                    (#[trigger] final(self).map.corridor_tree.roots@[r]) as int,
                    0,
                ),
    {
        let ghost cs = old(self).corridor_size;
        let ghost pl = old(self).prune_length;
        let ghost t_old = old(self).map.corridor_tree;
        let roots = crate::corridor_tree::copy_indices(&self.map.corridor_tree.roots);
        let n = roots.len();
        let mut k: usize = 0;
        while k < n
            invariant
                k <= n,
                self.wf(),
                self.margins == old(self).margins,
                self.corridor_size == old(self).corridor_size,
                self.prune_length == old(self).prune_length,
                phase3_step(old(self).map, self.map, cs),
                n == roots@.len(),
                roots@ == t_old.roots@,
                forall|kk: int|
                    0 <= kk < k ==> no_disposable_in(
                        self.map,
                        cs,
                        pl,
                        (#[trigger] roots@[kk]) as int,
                        0,
                    ),
            decreases n - k,
        {
            let r = roots[k];
            proof {
                assert(t_old.roots@[k as int] < t_old.nodes@.len());
            }
            let ghost m_pre = self.map;
            self.iterate_node(r, 0);
            proof {
                lemma_phase3_trans(old(self).map, m_pre, self.map, cs);
                let tp = m_pre.corridor_tree;
                assert forall|kk: int| 0 <= kk < k + 1 implies no_disposable_in(
                    self.map,
                    cs,
                    pl,
                    (#[trigger] roots@[kk]) as int,
                    0,
                ) by {
                    if roots@[kk] == r {
                        assert(no_disposable_in(self.map, cs, pl, r as int, 0));
                    } else {
                        let rr = roots@[kk] as int;
                        assert(tp.nodes@[rr].parent is None);
                        assert(tp.nodes@[r as int].parent is None);
                        assert forall|j: int|
                            #![trigger crate::corridor_tree::in_subtree(tp, rr, j)]
                            0 <= j < tp.nodes@.len() && crate::corridor_tree::in_subtree(
                                tp,
                                rr,
                                j,
                            ) implies !crate::corridor_tree::in_subtree(tp, r as int, j)
                            && (tp.nodes@[r as int].parent matches Some(pq) ==> pq as int != j)
                            by {
                            lemma_root_disjoint(tp, rr, r as int, j);
                        }
                        lemma_no_disposable_other(m_pre, self.map, cs, pl, rr, 0, r as int);
                    }
                }
            }
            k += 1;
        }
    }
}

/// Whether every cell of the rectangle is breakable rock.
fn rect_all_rock(m: &CellMatrix, x: i32, y: i32, width: u16, height: u16) -> (r: bool)
    requires
        m.dims_ok(),
        -0x4000_0000 <= x <= 0x4000_0000,
        -0x4000_0000 <= y <= 0x4000_0000,
    ensures
        r == forall|a: int, b: int|
            x <= a < x + width && y <= b < y + height ==> (#[trigger] m.cell_at(a, b)) is Rock,
{
    let x1: i32 = x + width as i32;
    let y1: i32 = y + height as i32;
    let mut b: i32 = y;
    while b < y1
        invariant
            m.dims_ok(),
            x1 == x + width,
            y1 == y + height,
            -0x4000_0000 <= x <= 0x4000_0000,
            -0x4000_0000 <= y <= b <= y1 <= 0x4001_0000,
            x <= x1 <= 0x4001_0000,
            forall|aa: int, bb: int|
                x <= aa < x1 && y <= bb < b ==> (#[trigger] m.cell_at(aa, bb)) is Rock,
        decreases y1 - b,
    {
        let mut a: i32 = x;
        while a < x1
            invariant
                m.dims_ok(),
                x1 == x + width,
                y1 == y + height,
                -0x4000_0000 <= x <= a <= x1 <= 0x4001_0000,
                -0x4000_0000 <= y <= b < y1 <= 0x4001_0000,
                forall|aa: int, bb: int|
                    x <= aa < x1 && y <= bb < b ==> (#[trigger] m.cell_at(aa, bb)) is Rock,
                forall|aa: int| x <= aa < a ==> (#[trigger] m.cell_at(aa, b as int)) is Rock,
            decreases x1 - a,
        {
            let cell = m.get(a, b);
            if !cell.is_rock() {
                return false;
            }
            a += 1;
        }
        b += 1;
    }
    true
}

/// Footprint soundness carries over when the grid and the forest are
/// unchanged.
proof fn lemma_footprints_same(s1: SectionMerger, s2: SectionMerger)
    requires
        s1.footprints_ok(),
        s2.corridor_size == s1.corridor_size,
        s2.map.cell_vector == s1.map.cell_vector,
        s2.map.width == s1.map.width,
        s2.map.height == s1.map.height,
        s2.map.corridor_tree == s1.map.corridor_tree,
    ensures
        s2.footprints_ok(),
{
    crate::labyrinth_generator::lemma_same_cells(s1.map, s2.map);
    assert forall|i: int, a: int, b: int|
        #![trigger s2.map.corridor_tree.nodes@[i], s2.map.cell_at(a, b)]
        0 <= i < s2.map.corridor_tree.nodes@.len() && s2.map.corridor_tree.nodes@[i].x <= a
            < s2.map.corridor_tree.nodes@[i].x + s2.corridor_size.0
            && s2.map.corridor_tree.nodes@[i].y <= b < s2.map.corridor_tree.nodes@[i].y
            + s2.corridor_size.1 implies (s2.map.cell_at(a, b) is Corridor || s2.map.cell_at(a, b)
        is Removed) by {
        assert(s1.map.corridor_tree.nodes@[i] == s2.map.corridor_tree.nodes@[i]);
        assert(s1.map.cell_at(a, b) is Corridor || s1.map.cell_at(a, b) is Removed);
    }
}

/// Whether any cell of the rectangle is a walkable `Connection`.
fn rect_has_connection(m: &CellMatrix, x: i32, y: i32, width: u16, height: u16) -> (r: bool)
    requires
        m.dims_ok(),
        -0x4000_0000 <= x <= 0x4000_0000,
        -0x4000_0000 <= y <= 0x4000_0000,
    ensures
        r == exists|a: int, b: int|
            x <= a < x + width && y <= b < y + height && (#[trigger] m.cell_at(a, b))
                is Connection,
{
    let x1: i32 = x + width as i32;
    let y1: i32 = y + height as i32;
    let mut b: i32 = y;
    while b < y1
        invariant
            m.dims_ok(),
            x1 == x + width,
            y1 == y + height,
            -0x4000_0000 <= x <= 0x4000_0000,
            -0x4000_0000 <= y <= b <= y1 <= 0x4001_0000,
            x <= x1 <= 0x4001_0000,
            forall|aa: int, bb: int|
                x <= aa < x1 && y <= bb < b ==> !((#[trigger] m.cell_at(aa, bb)) is Connection),
        decreases y1 - b,
    {
        let mut a: i32 = x;
        while a < x1
            invariant
                m.dims_ok(),
                x1 == x + width,
                y1 == y + height,
                -0x4000_0000 <= x <= a <= x1 <= 0x4001_0000,
                -0x4000_0000 <= y <= b < y1 <= 0x4001_0000,
                forall|aa: int, bb: int|
                    x <= aa < x1 && y <= bb < b ==> !((#[trigger] m.cell_at(aa, bb))
                        is Connection),
                forall|aa: int|
                    x <= aa < a ==> !((#[trigger] m.cell_at(aa, b as int)) is Connection),
            decreases x1 - a,
    {
            let cell = m.get(a, b);
            let is_conn = match cell {
                Cell::Connection => true,
                _ => false,
            };
            if is_conn {
                return true;
            }
            a += 1;
        }
        b += 1;
    }
    false
}

} // verus!
