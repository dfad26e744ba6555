//! The cell grid and the map aggregate built on it: rooms, corridor
//! strands, sections, and the corridor forest.
//!
//! Reads are total: any coordinate outside `[0, width) x [0, height)`,
//! including negative ones, reads as the `SolidRock` sentinel. Writes out
//! of range are a programmer error and are excluded by precondition.

use vstd::prelude::*;

use crate::corridor_tree::CorridorTree;
use crate::room::Corridor;
use crate::room::Room;
use crate::sections::Connection;
use crate::sections::Section;

verus! {

/// The tag of one grid cell.
#[derive(Clone, Copy, Debug, PartialEq, Eq, Structural)]
pub enum Cell {
    /// Breakable rock: the unexcavated interior of the map.
    Rock,
    /// Unbreakable rock: the sentinel outside and around the map.
    SolidRock,
    /// A wall piece.
    Wall,
    /// Part of the room with this index.
    Room(usize),
    /// Part of the corridor strand with this index.
    Corridor(usize),
    /// Near a wall, at this distance.
    Perimeter(u8),
    /// A gap opened into a walkable link between two sections.
    Connection,
    /// A pruned corridor cell.
    Removed,
}

impl Cell {
    /// True exactly on `Room` cells.
    pub fn is_room(&self) -> (r: bool)
        ensures
            r == (*self is Room),
    {
        match self {
            Cell::Room(_) => true,
            _ => false,
        }
    }

    /// True exactly on `Corridor` cells.
    pub fn is_corridor(&self) -> (r: bool)
        ensures
            r == (*self is Corridor),
    {
        match self {
            Cell::Corridor(_) => true,
            _ => false,
        }
    }

    /// True exactly on breakable `Rock` cells.
    pub fn is_rock(&self) -> (r: bool)
        ensures
            r == (*self is Rock),
    {
        match self {
            Cell::Rock => true,
            _ => false,
        }
    }

    /// True exactly on the cells a walker can stand on.
    pub fn is_walkable(&self) -> (r: bool)
        ensures
            r == (*self is Room || *self is Corridor || *self is Connection),
    {
        match self {
            Cell::Room(_) => true,
            Cell::Corridor(_) => true,
            Cell::Connection => true,
            _ => false,
        }
    }
}

/// A row-major index is in range whenever its coordinates are, and a grid
/// of 16-bit dimensions always fits in a usize.
pub proof fn lemma_grid_index(w: int, h: int, x: int, y: int)
    requires
        0 <= x < w <= 0xFFFF,
        0 <= y < h <= 0xFFFF,
    ensures
        0 <= y * w + x < w * h,
        w * h <= 0xFFFF_FFFF,
{
    assert(0 <= y * w + x < w * h && w * h <= 0xFFFF_FFFF) by (nonlinear_arith)
        requires
            0 <= x < w <= 0xFFFF,
            0 <= y < h <= 0xFFFF,
    ;
}

/// Distinct in-range coordinates give distinct row-major indices.
pub proof fn lemma_grid_index_injective(w: int, x1: int, y1: int, x2: int, y2: int)
    requires
        0 <= x1 < w,
        0 <= x2 < w,
        0 <= y1,
        0 <= y2,
        !(x1 == x2 && y1 == y2),
    ensures
        y1 * w + x1 != y2 * w + x2,
{
    assert(y1 * w + x1 != y2 * w + x2) by (nonlinear_arith)
        requires
            0 <= x1 < w,
            0 <= x2 < w,
            0 <= y1,
            0 <= y2,
            !(x1 == x2 && y1 == y2),
    ;
}

/// The map: the cell grid plus everything built on it during generation.
pub struct CellMatrix {
    pub cell_vector: Vec<Cell>,
    pub width: u16,
    pub height: u16,
    pub room_vec: Vec<Room>,
    pub corridor_vec: Vec<Corridor>,
    pub corridor_tree: CorridorTree,
    pub section_vec: Vec<Section>,
}

impl CellMatrix {
    /// The grid vector holds exactly one cell per coordinate.
    pub open spec fn dims_ok(self) -> bool {
        self.cell_vector@.len() == self.width as int * self.height as int
    }

    pub open spec fn in_bounds(self, x: int, y: int) -> bool {
        0 <= x < self.width as int && 0 <= y < self.height as int
    }

    /// The cell at `(x, y)`: the stored cell in range, the `SolidRock`
    /// sentinel everywhere else.
    pub open spec fn cell_at(self, x: int, y: int) -> Cell {
        if self.in_bounds(x, y) {
            self.cell_vector@[y * self.width as int + x]
        } else {
            Cell::SolidRock
        }
    }

    /// A cell tag may only reference a live room or corridor.
    pub open spec fn tag_valid(self, c: Cell) -> bool {
        &&& (c matches Cell::Room(r) ==> r < self.room_vec@.len())
        &&& (c matches Cell::Corridor(k) ==> k < self.corridor_vec@.len())
    }

    /// Every id in use indexes a live entry: grid tags reference live rooms
    /// and corridors, and every room, corridor and section carries a section
    /// id that indexes a live section.
    pub open spec fn sections_valid(self) -> bool {
        &&& (forall|i: int|
            0 <= i < self.cell_vector@.len() ==> #[trigger] self.tag_valid(self.cell_vector@[i]))
        &&& (forall|r: int|
            0 <= r < self.room_vec@.len() ==> #[trigger] self.room_vec@[r].section_id
                < self.section_vec@.len())
        &&& (forall|c: int|
            0 <= c < self.corridor_vec@.len() ==> #[trigger] self.corridor_vec@[c].section_id
                < self.section_vec@.len())
        &&& (forall|s: int|
            0 <= s < self.section_vec@.len() ==> #[trigger] self.section_vec@[s].id
                < self.section_vec@.len())
    }

    /// A fresh grid filled with `filler_cell`, with no rooms, corridors,
    /// sections or corridor trees yet.
    pub fn new(width: u16, height: u16, filler_cell: Cell) -> (m: CellMatrix)
        ensures
            m.width == width,
            m.height == height,
            m.dims_ok(),
            forall|i: int| 0 <= i < m.cell_vector@.len() ==> m.cell_vector@[i] == filler_cell,
            forall|x: int, y: int|
                m.in_bounds(x, y) ==> #[trigger] m.cell_at(x, y) == filler_cell,
            m.room_vec@.len() == 0,
            m.corridor_vec@.len() == 0,
            m.section_vec@.len() == 0,
            m.corridor_tree.nodes@.len() == 0,
            m.corridor_tree.roots@.len() == 0,
            m.corridor_tree.wf(),
    {
        proof {
            assert(width as int * height as int <= 0xFFFF_FFFF) by (nonlinear_arith)
                requires
                    width <= 0xFFFF && height <= 0xFFFF,
            ;
        }
        let n: usize = (width as usize) * (height as usize);
        let m = CellMatrix {
            width,
            height,
            cell_vector: vec![filler_cell; n],
            room_vec: Vec::new(),
            corridor_vec: Vec::new(),
            section_vec: Vec::new(),
            corridor_tree: CorridorTree::new(),
        };
        proof {
            assert forall|x: int, y: int| m.in_bounds(x, y) implies #[trigger] m.cell_at(x, y)
                == filler_cell by {
                lemma_grid_index(width as int, height as int, x, y);
            }
        }
        m
    }

    /// Total read: the stored cell in range, the sentinel outside. Never
    /// fails, for any pair of integers.
    pub fn get(&self, x: i32, y: i32) -> (r: Cell)
        requires
            self.dims_ok(),
        ensures
            r == self.cell_at(x as int, y as int),
    {
        if x > self.width as i32 - 1 || y > self.height as i32 - 1 || x < 0 || y < 0 {
            Cell::SolidRock
        } else {
            proof {
                lemma_grid_index(self.width as int, self.height as int, x as int, y as int);
            }
            let idx: usize = (y as usize) * (self.width as usize) + (x as usize);
            self.cell_vector[idx]
        }
    }

    /// Write one in-range cell; every other cell and every other component
    /// of the map is untouched.
    pub fn set(&mut self, x: u16, y: u16, cell: Cell)
        requires
            old(self).dims_ok(),
            x < old(self).width,
            y < old(self).height,
        ensures
            final(self).dims_ok(),
            final(self).width == old(self).width,
            final(self).height == old(self).height,
            final(self).room_vec == old(self).room_vec,
            final(self).corridor_vec == old(self).corridor_vec,
            final(self).section_vec == old(self).section_vec,
            final(self).corridor_tree == old(self).corridor_tree,
            final(self).cell_vector@ == old(self).cell_vector@.update(
                y as int * old(self).width as int + x as int,
                cell,
            ),
            forall|a: int, b: int|
                #[trigger] final(self).cell_at(a, b) == (if a == x as int && b == y as int {
                    cell
                } else {
                    old(self).cell_at(a, b)
                }),
    {
        proof {
            lemma_grid_index(self.width as int, self.height as int, x as int, y as int);
        }
        let idx: usize = (y as usize) * (self.width as usize) + (x as usize);
        self.cell_vector[idx] = cell;
        proof {
            assert forall|a: int, b: int| #[trigger] self.cell_at(a, b) == (if a == x as int && b
                == y as int {
                cell
            } else {
                old(self).cell_at(a, b)
            }) by {
                if self.in_bounds(a, b) {
                    lemma_grid_index(self.width as int, self.height as int, a, b);
                    if !(a == x as int && b == y as int) {
                        lemma_grid_index_injective(
                            self.width as int,
                            a,
                            b,
                            x as int,
                            y as int,
                        );
                    }
                }
            }
        }
    }

    /// Allocate a fresh section; its id is its index in the section list.
    pub fn new_section(&mut self) -> (index: usize)
        ensures
            index == old(self).section_vec@.len(),
            final(self).section_vec@.len() == old(self).section_vec@.len() + 1,
            forall|j: int|
                0 <= j < old(self).section_vec@.len() ==> final(self).section_vec@[j] == old(
                    self,
                ).section_vec@[j],
            final(self).section_vec@[index as int].id == index,
            final(self).section_vec@[index as int].connections@.len() == 0,
            final(self).cell_vector == old(self).cell_vector,
            final(self).width == old(self).width,
            final(self).height == old(self).height,
            final(self).room_vec == old(self).room_vec,
            final(self).corridor_vec == old(self).corridor_vec,
            final(self).corridor_tree == old(self).corridor_tree,
    {
        let index = self.section_vec.len();
        self.section_vec.push(Section::new(index));
        index
    }

    /// Append a placed room; returns its index.
    pub fn push_room(&mut self, room: Room) -> (idx: usize)
        ensures
            idx == old(self).room_vec@.len(),
            final(self).room_vec@ == old(self).room_vec@.push(room),
            final(self).cell_vector == old(self).cell_vector,
            final(self).width == old(self).width,
            final(self).height == old(self).height,
            final(self).corridor_vec == old(self).corridor_vec,
            final(self).section_vec == old(self).section_vec,
            final(self).corridor_tree == old(self).corridor_tree,
    {
        let idx = self.room_vec.len();
        self.room_vec.push(room);
        idx
    }

    /// Start a corridor strand: allocate its section and its record; returns
    /// the strand's index.
    pub fn add_corridor(&mut self) -> (idx: usize)
        ensures
            idx == old(self).corridor_vec@.len(),
            final(self).section_vec@.len() == old(self).section_vec@.len() + 1,
            forall|j: int|
                0 <= j < old(self).section_vec@.len() ==> final(self).section_vec@[j] == old(
                    self,
                ).section_vec@[j],
            final(self).section_vec@[old(self).section_vec@.len() as int].id == old(
                self,
            ).section_vec@.len(),
            final(self).section_vec@[old(self).section_vec@.len() as int].connections@.len() == 0,
            final(self).corridor_vec@ == old(self).corridor_vec@.push(
                Corridor { section_id: old(self).section_vec@.len() as usize },
            ),
            final(self).cell_vector == old(self).cell_vector,
            final(self).width == old(self).width,
            final(self).height == old(self).height,
            final(self).room_vec == old(self).room_vec,
            final(self).corridor_tree == old(self).corridor_tree,
    {
        let section_id = self.new_section();
        let idx = self.corridor_vec.len();
        self.corridor_vec.push(Corridor { section_id });
        idx
    }

    /// The room with this index.
    pub fn get_room(&self, idx: usize) -> (r: &Room)
        requires
            idx < self.room_vec@.len(),
        ensures
            *r == self.room_vec@[idx as int],
    {
        &self.room_vec[idx]
    }

    /// The corridor strand with this index.
    pub fn get_corridor(&self, idx: usize) -> (r: &Corridor)
        requires
            idx < self.corridor_vec@.len(),
        ensures
            *r == self.corridor_vec@[idx as int],
    {
        &self.corridor_vec[idx]
    }

    /// All placed rooms, in placement order.
    pub fn iter_rooms(&self) -> (r: &Vec<Room>)
        ensures
            r@ == self.room_vec@,
    {
        &self.room_vec
    }

    /// All corridor strands, in carving order.
    pub fn iter_corridors(&self) -> (r: &Vec<Corridor>)
        ensures
            r@ == self.corridor_vec@,
    {
        &self.corridor_vec
    }

    /// The section a connection candidate points to.
    pub fn get_connection_section(&self, connection: &Connection) -> (r: &Section)
        requires
            connection.id < self.section_vec@.len(),
        ensures
            *r == self.section_vec@[connection.id as int],
    {
        &self.section_vec[connection.id]
    }

    /// The section with this index.
    pub fn get_section_at(&self, idx: usize) -> (r: &Section)
        requires
            idx < self.section_vec@.len(),
        ensures
            *r == self.section_vec@[idx as int],
    {
        &self.section_vec[idx]
    }

    /// Relabel the section with index `idx` to carry `id`.
    pub fn set_section_id(&mut self, idx: usize, id: usize)
        requires
            idx < old(self).section_vec@.len(),
        ensures
            final(self).section_vec@.len() == old(self).section_vec@.len(),
            final(self).section_vec@[idx as int].id == id,
            final(self).section_vec@[idx as int].connections == old(
                self,
            ).section_vec@[idx as int].connections,
            forall|j: int|
                0 <= j < old(self).section_vec@.len() && j != idx ==> final(self).section_vec@[j]
                    == old(self).section_vec@[j],
            final(self).cell_vector == old(self).cell_vector,
            final(self).width == old(self).width,
            final(self).height == old(self).height,
            final(self).room_vec == old(self).room_vec,
            final(self).corridor_vec == old(self).corridor_vec,
            final(self).corridor_tree == old(self).corridor_tree,
    {
        let section = &mut self.section_vec[idx];
        section.id = id;
    }

    /// Append a connection candidate to the section with index `idx`.
    pub fn section_add_connection(
        &mut self,
        idx: usize,
        x: u16,
        y: u16,
        id: usize,
        score: u32,
        direction: crate::direction::Direction,
    )
        requires
            idx < old(self).section_vec@.len(),
        ensures
            final(self).section_vec@.len() == old(self).section_vec@.len(),
            final(self).section_vec@[idx as int].id == old(self).section_vec@[idx as int].id,
            final(self).section_vec@[idx as int].connections@ == old(
                self,
            ).section_vec@[idx as int].connections@.push(
                Connection { x, y, id, score, direction },
            ),
            forall|j: int|
                0 <= j < old(self).section_vec@.len() && j != idx ==> final(self).section_vec@[j]
                    == old(self).section_vec@[j],
            final(self).cell_vector == old(self).cell_vector,
            final(self).width == old(self).width,
            final(self).height == old(self).height,
            final(self).room_vec == old(self).room_vec,
            final(self).corridor_vec == old(self).corridor_vec,
            final(self).corridor_tree == old(self).corridor_tree,
    {
        let section = &mut self.section_vec[idx];
        section.add_connection(x, y, id, score, direction);
    }

    /// The index of the section that the given cell belongs to: rooms and
    /// corridors resolve through their records, every other cell belongs to
    /// no section.
    pub open spec fn spec_cell_section(self, c: Cell) -> Option<usize> {
        match c {
            Cell::Room(idx) => Some(self.room_vec@[idx as int].section_id),
            Cell::Corridor(idx) => Some(self.corridor_vec@[idx as int].section_id),
            _ => None,
        }
    }

    /// The index of the section owning the cell at `(x, y)`, if any.
    pub open spec fn spec_section_at(self, x: int, y: int) -> Option<usize> {
        self.spec_cell_section(self.cell_at(x, y))
    }

    /// The section owning the given cell, if any.
    pub fn get_cell_section(&self, cell: &Cell) -> (r: Option<&Section>)
        requires
            self.sections_valid(),
            self.tag_valid(*cell),
        ensures
            (r matches Some(s) ==> {
                &&& self.spec_cell_section(*cell) matches Some(i)
                &&& i < self.section_vec@.len()
                &&& *s == self.section_vec@[i as int]
            }),
            r is None <==> self.spec_cell_section(*cell) is None,
    {
        match cell {
            Cell::Room(idx) => {
                let section_id = self.room_vec[*idx].section_id;
                Some(&self.section_vec[section_id])
            },
            Cell::Corridor(idx) => {
                let section_id = self.corridor_vec[*idx].section_id;
                Some(&self.section_vec[section_id])
            },
            _ => None,
        }
    }

    /// The index of the section owning the cell at `(x, y)`, if any.
    pub fn get_section_index(&self, x: i32, y: i32) -> (r: Option<usize>)
        requires
            self.dims_ok(),
            self.sections_valid(),
        ensures
            r == self.spec_section_at(x as int, y as int),
            r matches Some(i) ==> i < self.section_vec@.len(),
    {
        let cell = self.get(x, y);
        proof {
            if self.in_bounds(x as int, y as int) {
                lemma_grid_index(self.width as int, self.height as int, x as int, y as int);
                assert(self.tag_valid(
                    self.cell_vector@[y as int * self.width as int + x as int],
                ));
            }
        }
        match cell {
            Cell::Room(idx) => Some(self.room_vec[idx].section_id),
            Cell::Corridor(idx) => Some(self.corridor_vec[idx].section_id),
            _ => None,
        }
    }

    /// The section owning the cell at `(x, y)`, if any.
    pub fn get_section(&self, x: i32, y: i32) -> (r: Option<&Section>)
        requires
            self.dims_ok(),
            self.sections_valid(),
        ensures
            (r matches Some(s) ==> {
                &&& self.spec_section_at(x as int, y as int) matches Some(i)
                &&& i < self.section_vec@.len()
                &&& *s == self.section_vec@[i as int]
            }),
            r is None <==> self.spec_section_at(x as int, y as int) is None,
    {
        let cell = self.get(x, y);
        proof {
            if self.in_bounds(x as int, y as int) {
                lemma_grid_index(self.width as int, self.height as int, x as int, y as int);
                assert(self.tag_valid(
                    self.cell_vector@[y as int * self.width as int + x as int],
                ));
            }
        }
        self.get_cell_section(&cell)
    }

    /// Fill an in-range rectangle with one cell; everything else is
    /// untouched.
    pub fn set_rect(&mut self, cell: Cell, x: u16, y: u16, width: u16, height: u16)
        requires
            old(self).dims_ok(),
            x + width <= old(self).width,
            y + height <= old(self).height,
        ensures
            final(self).dims_ok(),
            final(self).width == old(self).width,
            final(self).height == old(self).height,
            final(self).room_vec == old(self).room_vec,
            final(self).corridor_vec == old(self).corridor_vec,
            final(self).section_vec == old(self).section_vec,
            final(self).corridor_tree == old(self).corridor_tree,
            forall|a: int, b: int|
                #[trigger] final(self).cell_at(a, b) == (if x as int <= a < x as int + width as int
                    && y as int <= b < y as int + height as int {
                    cell
                } else {
                    old(self).cell_at(a, b)
                }),
    {
        let mut yy: u16 = y;
        while yy < y + height
            invariant
                self.dims_ok(),
                self.width == old(self).width,
                self.height == old(self).height,
                self.room_vec == old(self).room_vec,
                self.corridor_vec == old(self).corridor_vec,
                self.section_vec == old(self).section_vec,
                self.corridor_tree == old(self).corridor_tree,
                x + width <= self.width,
                y + height <= self.height,
                y <= yy <= y + height,
                forall|a: int, b: int|
                    #[trigger] self.cell_at(a, b) == (if x as int <= a < x as int + width as int
                        && y as int <= b < yy as int {
                        cell
                    } else {
                        old(self).cell_at(a, b)
                    }),
            decreases y + height - yy,
        {
            let mut xx: u16 = x;
            while xx < x + width
                invariant
                    self.dims_ok(),
                    self.width == old(self).width,
                    self.height == old(self).height,
                    self.room_vec == old(self).room_vec,
                    self.corridor_vec == old(self).corridor_vec,
                    self.section_vec == old(self).section_vec,
                    self.corridor_tree == old(self).corridor_tree,
                    x + width <= self.width,
                    y + height <= self.height,
                    y <= yy < y + height,
                    x <= xx <= x + width,
                    forall|a: int, b: int|
                        #[trigger] self.cell_at(a, b) == (if (x as int <= a < x as int
                            + width as int && y as int <= b < yy as int) || (x as int <= a
                            < xx as int && b == yy as int) {
                            cell
                        } else {
                            old(self).cell_at(a, b)
                        }),
                decreases x + width - xx,
            {
                self.set(xx, yy, cell);
                xx += 1;
            }
            yy += 1;
        }
    }
    /// Copy an axis-aligned sub-region into a fresh grid of its own;
    /// out-of-range source cells read as the sentinel.
    pub fn get_rect(&self, x: i32, y: i32, width: u16, height: u16) -> (r: CellMatrix)
        requires
            self.dims_ok(),
            -0x4000_0000 <= x <= 0x4000_0000,
            -0x4000_0000 <= y <= 0x4000_0000,
        ensures
            r.width == width,
            r.height == height,
            r.dims_ok(),
            forall|a: int, b: int|
                0 <= a < width as int && 0 <= b < height as int ==> #[trigger] r.cell_at(a, b)
                    == self.cell_at(x + a, y + b),
    {
        let mut rect = CellMatrix::new(width, height, Cell::SolidRock);
        let mut b: u16 = 0;
        while b < height
            invariant
                self.dims_ok(),
                -0x4000_0000 <= x <= 0x4000_0000,
                -0x4000_0000 <= y <= 0x4000_0000,
                b <= height,
                rect.width == width,
                rect.height == height,
                rect.dims_ok(),
                forall|a2: int, b2: int|
                    0 <= a2 < width as int && 0 <= b2 < height as int ==> #[trigger] rect.cell_at(
                        a2,
                        b2,
                    ) == (if b2 < b as int {
                        self.cell_at(x + a2, y + b2)
                    } else {
                        Cell::SolidRock
                    }),
            decreases height - b,
        {
            let mut a: u16 = 0;
            while a < width
                invariant
                    self.dims_ok(),
                    -0x4000_0000 <= x <= 0x4000_0000,
                    -0x4000_0000 <= y <= 0x4000_0000,
                    b < height,
                    a <= width,
                    rect.width == width,
                    rect.height == height,
                    rect.dims_ok(),
                    forall|a2: int, b2: int|
                        0 <= a2 < width as int && 0 <= b2 < height as int
                            ==> #[trigger] rect.cell_at(a2, b2) == (if b2 < b as int || (b2
                            == b as int && a2 < a as int) {
                            self.cell_at(x + a2, y + b2)
                        } else {
                            Cell::SolidRock
                        }),
                decreases width - a,
            {
                let cell = self.get(x + a as i32, y + b as i32);
                rect.set(a, b, cell);
                a += 1;
            }
            b += 1;
        }
        rect
    }

    /// Scan an axis-aligned region for a cell matching the predicate,
    /// short-circuiting on the first match; the matched cell is returned.
    pub fn rect_is<F: Fn(Cell) -> bool>(
        &self,
        x: i32,
        y: i32,
        width: u16,
        height: u16,
        func: F,
    ) -> (r: Option<Cell>)
        requires
            self.dims_ok(),
            -0x4000_0000 <= x <= 0x4000_0000,
            -0x4000_0000 <= y <= 0x4000_0000,
            forall|c: Cell| #[trigger] func.requires((c,)),
        ensures
            (r matches Some(c) ==> exists|a: int, b: int|
                #![auto]
                x <= a < x + width && y <= b < y + height && c == self.cell_at(a, b)
                    && func.ensures((c,), true)),
            r is None ==> forall|a: int, b: int|
                x <= a < x + width && y <= b < y + height ==> func.ensures(
                    (#[trigger] self.cell_at(a, b),),
                    false,
                ),
    {
        let mut pos_y: i32 = y;
        while pos_y < y + height as i32
            invariant
                self.dims_ok(),
                -0x4000_0000 <= x <= 0x4000_0000,
                -0x4000_0000 <= y <= 0x4000_0000,
                y <= pos_y <= y + height,
                forall|c: Cell| #[trigger] func.requires((c,)),
                forall|a: int, b: int|
                    x <= a < x + width && y <= b < pos_y ==> func.ensures(
                        (#[trigger] self.cell_at(a, b),),
                        false,
                    ),
            decreases y + height - pos_y,
        {
            let mut pos_x: i32 = x;
            while pos_x < x + width as i32
                invariant
                    self.dims_ok(),
                    -0x4000_0000 <= x <= 0x4000_0000,
                    -0x4000_0000 <= y <= 0x4000_0000,
                    y <= pos_y < y + height,
                    x <= pos_x <= x + width,
                    forall|c: Cell| #[trigger] func.requires((c,)),
                    forall|a: int, b: int|
                        x <= a < x + width && y <= b < pos_y ==> func.ensures(
                            (#[trigger] self.cell_at(a, b),),
                            false,
                        ),
                    forall|a: int|
                        x <= a < pos_x ==> func.ensures(
                            (#[trigger] self.cell_at(a, pos_y as int),),
                            false,
                        ),
                decreases x + width - pos_x,
            {
                let cell = self.get(pos_x, pos_y);
                if func(cell) {
                    return Some(cell);
                }
                pos_x += 1;
            }
            pos_y += 1;
        }
        None
    }

    /// Apply the probe to the cells at the given coordinates, in their
    /// given order, short-circuiting on the first `Some`: every coordinate
    /// before the match probed to `None`.
    pub fn check_cells<T, F: Fn(Cell) -> Option<T>>(&self, coords: Vec<(i32, i32)>, func: F) -> (r:
        Option<T>)
        requires
            self.dims_ok(),
            forall|c: Cell| #[trigger] func.requires((c,)),
        ensures
            (r matches Some(t) ==> exists|i: int|
                #![auto]
                0 <= i < coords@.len() && func.ensures(
                    (self.cell_at(coords@[i].0 as int, coords@[i].1 as int),),
                    Some(t),
                ) && forall|j: int|
                    0 <= j < i ==> func.ensures(
                        (self.cell_at(#[trigger] coords@[j].0 as int, coords@[j].1 as int),),
                        Option::<T>::None,
                    )),
            r is None ==> forall|i: int|
                0 <= i < coords@.len() ==> func.ensures(
                    (self.cell_at(
                        #[trigger] coords@[i].0 as int,
                        coords@[i].1 as int,
                    ),),
                    Option::<T>::None,
                ),
    {
        let mut i: usize = 0;
        while i < coords.len()
            invariant
                self.dims_ok(),
                i <= coords@.len(),
                forall|c: Cell| #[trigger] func.requires((c,)),
                forall|j: int|
                    0 <= j < i ==> func.ensures(
                        (self.cell_at(#[trigger] coords@[j].0 as int, coords@[j].1 as int),),
                        Option::<T>::None,
                    ),
            decreases coords@.len() - i,
        {
            let coord = coords[i];
            let cell = self.get(coord.0, coord.1);
            match func(cell) {
                Some(a) => {
                    proof {
                        assert(func.ensures(
                            (self.cell_at(coords@[i as int].0 as int, coords@[i as int].1 as int),),
                            Some(a),
                        ));
                    }
                    return Some(a);
                },
                _ => {},
            }
            i += 1;
        }
        None
    }

    /// The positions scanned by `rect_border_is`: the rectangle's own
    /// perimeter — its leftmost and rightmost columns and its top and
    /// bottom rows, nothing outside the rectangle.
    pub open spec fn on_border(x: int, y: int, w: int, h: int, a: int, b: int) -> bool {
        &&& x <= a < x + w
        &&& y <= b < y + h
        &&& (a == x || a == x + w - 1 || b == y || b == y + h - 1)
    }

    /// Apply the probe to every cell on the rectangle's perimeter,
    /// short-circuiting on the first `Some`.
    pub fn rect_border_is<T, F: Fn(Cell) -> Option<T>>(
        &self,
        x: i32,
        y: i32,
        width: u16,
        height: u16,
        func: F,
    ) -> (r: Option<T>)
        requires
            self.dims_ok(),
            -0x4000_0000 <= x <= 0x4000_0000,
            -0x4000_0000 <= y <= 0x4000_0000,
            forall|c: Cell| #[trigger] func.requires((c,)),
        ensures
            (r matches Some(t) ==> exists|a: int, b: int|
                #![auto]
                Self::on_border(x as int, y as int, width as int, height as int, a, b)
                    && func.ensures((self.cell_at(a, b),), Some(t))),
            r is None ==> forall|a: int, b: int|
                Self::on_border(x as int, y as int, width as int, height as int, a, b)
                    ==> func.ensures((#[trigger] self.cell_at(a, b),), Option::<T>::None),
    {
        if width == 0 || height == 0 {
            // An empty rectangle has no perimeter.
            return None;
        }
        let xr: i32 = x + width as i32 - 1;
        let yb: i32 = y + height as i32 - 1;
        let mut pos_y: i32 = y;
        while pos_y < y + height as i32
            invariant
                self.dims_ok(),
                -0x4000_0000 <= x <= 0x4000_0000,
                -0x4000_0000 <= y <= 0x4000_0000,
                width >= 1,
                height >= 1,
                xr == x + width - 1,
                yb == y + height - 1,
                y <= pos_y <= y + height,
                forall|c: Cell| #[trigger] func.requires((c,)),
                forall|a: int, b: int|
                    (a == x as int || a == xr as int) && y <= b < pos_y ==> func.ensures(
                        (#[trigger] self.cell_at(a, b),),
                        Option::<T>::None,
                    ),
            decreases y + height - pos_y,
        {
            let cell = self.get(x, pos_y);
            match func(cell) {
                Some(a) => {
                    proof {
                        assert(Self::on_border(
                            x as int,
                            y as int,
                            width as int,
                            height as int,
                            x as int,
                            pos_y as int,
                        ));
                        assert(func.ensures((self.cell_at(x as int, pos_y as int),), Some(a)));
                    }
                    return Some(a);
                },
                _ => {},
            }
            let cell = self.get(xr, pos_y);
            match func(cell) {
                Some(a) => {
                    proof {
                        assert(Self::on_border(
                            x as int,
                            y as int,
                            width as int,
                            height as int,
                            xr as int,
                            pos_y as int,
                        ));
                        assert(func.ensures((self.cell_at(xr as int, pos_y as int),), Some(a)));
                    }
                    return Some(a);
                },
                _ => {},
            }
            pos_y += 1;
        }
        let mut pos_x: i32 = x;
        while pos_x < x + width as i32
            invariant
                self.dims_ok(),
                -0x4000_0000 <= x <= 0x4000_0000,
                -0x4000_0000 <= y <= 0x4000_0000,
                width >= 1,
                height >= 1,
                xr == x + width - 1,
                yb == y + height - 1,
                x <= pos_x <= x + width,
                forall|c: Cell| #[trigger] func.requires((c,)),
                forall|a: int, b: int|
                    (a == x as int || a == xr as int) && y <= b < y + height ==> func.ensures(
                        (#[trigger] self.cell_at(a, b),),
                        Option::<T>::None,
                    ),
                forall|a: int, b: int|
                    (b == y as int || b == yb as int) && x <= a < pos_x ==> func.ensures(
                        (#[trigger] self.cell_at(a, b),),
                        Option::<T>::None,
                    ),
            decreases x + width - pos_x,
        {
            let cell = self.get(pos_x, y);
            match func(cell) {
                Some(a) => {
                    proof {
                        assert(Self::on_border(
                            x as int,
                            y as int,
                            width as int,
                            height as int,
                            pos_x as int,
                            y as int,
                        ));
                        assert(func.ensures((self.cell_at(pos_x as int, y as int),), Some(a)));
                    }
                    return Some(a);
                },
                _ => {},
            }
            let cell = self.get(pos_x, yb);
            match func(cell) {
                Some(a) => {
                    proof {
                        assert(Self::on_border(
                            x as int,
                            y as int,
                            width as int,
                            height as int,
                            pos_x as int,
                            yb as int,
                        ));
                        assert(func.ensures((self.cell_at(pos_x as int, yb as int),), Some(a)));
                    }
                    return Some(a);
                },
                _ => {},
            }
            pos_x += 1;
        }
        None
    }

    /// Every connection in the list points to a live section.
    pub open spec fn conns_ok(self, conns: Seq<Connection>) -> bool {
        forall|k: int| 0 <= k < conns.len() ==> (#[trigger] conns[k]).id < self.section_vec@.len()
    }

    /// The current id of the section a connection points to.
    pub open spec fn conn_key_id(self, c: Connection) -> usize {
        self.section_vec@[c.id as int].id
    }

    /// Two connections compete when they lead toward the same current
    /// section id along the same direction.
    #[verifier::opaque]
    pub open spec fn same_conn_key(self, a: Connection, b: Connection) -> bool {
        self.conn_key_id(a) == self.conn_key_id(b) && a.direction == b.direction
    }

    fn same_conn_key_exec(&self, a: &Connection, b: &Connection) -> (r: bool)
        requires
            a.id < self.section_vec@.len(),
            b.id < self.section_vec@.len(),
        ensures
            r == self.same_conn_key(*a, *b),
    {
        proof {
            reveal(CellMatrix::same_conn_key);
        }
        let ia = self.get_connection_section(a).get_id();
        let ib = self.get_connection_section(b).get_id();
        ia == ib && a.direction == b.direction
    }

    /// Sort connection candidates by descending score, by insertion.
    fn sort_connections_desc(conns: &Vec<Connection>) -> (sorted_v: Vec<Connection>)
        ensures
            sorted_v@.len() == conns@.len(),
            forall|j: int| 0 <= j < sorted_v@.len() ==> conns@.contains(#[trigger] sorted_v@[j]),
            forall|k: int| 0 <= k < conns@.len() ==> sorted_v@.contains(#[trigger] conns@[k]),
            forall|a: int, b: int|
                #![trigger sorted_v@[a], sorted_v@[b]]
                0 <= a <= b < sorted_v@.len() ==> sorted_v@[a].score >= sorted_v@[b].score,
    {
        let mut sorted_v: Vec<Connection> = Vec::new();
        let mut i: usize = 0;
        while i < conns.len()
            invariant
                i <= conns@.len(),
                sorted_v@.len() == i,
                forall|j: int| 0 <= j < sorted_v@.len() ==> conns@.contains(#[trigger] sorted_v@[j]),
                forall|k: int| 0 <= k < i ==> sorted_v@.contains(#[trigger] conns@[k]),
                forall|a: int, b: int|
                    #![trigger sorted_v@[a], sorted_v@[b]]
                    0 <= a <= b < sorted_v@.len() ==> sorted_v@[a].score >= sorted_v@[b].score,
            decreases conns@.len() - i,
        {
            let c = conns[i];
            let mut pos: usize = 0;
            while pos < sorted_v.len() && sorted_v[pos].score >= c.score
                invariant
                    pos <= sorted_v@.len(),
                    forall|t: int| 0 <= t < pos ==> (#[trigger] sorted_v@[t]).score >= c.score,
                    forall|a: int, b: int|
                        #![trigger sorted_v@[a], sorted_v@[b]]
                        0 <= a <= b < sorted_v@.len() ==> sorted_v@[a].score >= sorted_v@[b].score,
                decreases sorted_v@.len() - pos,
            {
                pos += 1;
            }
            let ghost old_sorted = sorted_v@;
            proof {
                old_sorted.insert_ensures(pos as int, c);
            }
            sorted_v.insert(pos, c);
            proof {
                assert forall|a: int, b: int|
                    #![trigger sorted_v@[a], sorted_v@[b]]
                    0 <= a <= b < sorted_v@.len() implies sorted_v@[a].score
                    >= sorted_v@[b].score by {
                    if b < pos {
                    } else if a > pos {
                        assert(sorted_v@[a] == old_sorted[a - 1]);
                        assert(sorted_v@[b] == old_sorted[b - 1]);
                    } else if a == pos && b == pos {
                    } else if a < pos && b == pos {
                        assert(sorted_v@[a] == old_sorted[a]);
                    } else if a == pos && b > pos {
                        // the loop stopped: either at the end, or on a
                        // strictly smaller score
                        assert(sorted_v@[b] == old_sorted[b - 1]);
                        if pos < old_sorted.len() {
                            assert(old_sorted[pos as int].score < c.score);
                        }
                    } else {
                        assert(sorted_v@[a] == old_sorted[a]);
                        assert(sorted_v@[b] == old_sorted[b - 1]);
                        if pos < old_sorted.len() {
                            assert(old_sorted[pos as int].score < c.score);
                        }
                    }
                }
                assert forall|j: int| 0 <= j < sorted_v@.len() implies conns@.contains(
                    #[trigger] sorted_v@[j],
                ) by {
                    if j < pos {
                        assert(sorted_v@[j] == old_sorted[j]);
                    } else if j == pos {
                        assert(sorted_v@[j] == c);
                        assert(conns@[i as int] == c);
                    } else {
                        assert(sorted_v@[j] == old_sorted[j - 1]);
                    }
                }
                assert forall|k: int| 0 <= k < i + 1 implies sorted_v@.contains(
                    #[trigger] conns@[k],
                ) by {
                    if k < i {
                        let t = choose|t: int|
                            0 <= t < old_sorted.len() && old_sorted[t] == conns@[k];
                        if t < pos {
                            assert(sorted_v@[t] == conns@[k]);
                        } else {
                            assert(sorted_v@[t + 1] == conns@[k]);
                        }
                    } else {
                        assert(sorted_v@[pos as int] == conns@[k]);
                    }
                }
            }
            i += 1;
        }
        sorted_v
    }

    /// Keep the first entry of each key of a descending-sorted candidate
    /// list: the best one per key.
    #[verifier::loop_isolation(false)]
    #[verifier::rlimit(100)]
    fn dedup_best(&self, sorted_v: &Vec<Connection>) -> (best: Vec<Connection>)
        requires
            self.conns_ok(sorted_v@),
            forall|a: int, b: int|
                #![trigger sorted_v@[a], sorted_v@[b]]
                0 <= a <= b < sorted_v@.len() ==> sorted_v@[a].score >= sorted_v@[b].score,
        ensures
            forall|j: int| 0 <= j < best@.len() ==> sorted_v@.contains(#[trigger] best@[j]),
            forall|a: int, b: int|
                #![trigger best@[a], best@[b]]
                0 <= a <= b < best@.len() ==> best@[a].score >= best@[b].score,
            forall|a: int, b: int|
                #![trigger best@[a], best@[b]]
                0 <= a < b < best@.len() ==> !self.same_conn_key(best@[a], best@[b]),
            forall|k: int|
                #![trigger sorted_v@[k]]
                0 <= k < sorted_v@.len() ==> exists|j: int|
                    #![auto]
                    0 <= j < best@.len() && self.same_conn_key(sorted_v@[k], best@[j])
                        && best@[j].score >= sorted_v@[k].score,
    {
        let mut best: Vec<Connection> = Vec::new();
        let mut i: usize = 0;
        while i < sorted_v.len()
            invariant
                i <= sorted_v@.len(),
                forall|j: int| 0 <= j < best@.len() ==> sorted_v@.contains(#[trigger] best@[j]),
                forall|j: int|
                    0 <= j < best@.len() && i < sorted_v@.len() ==> (#[trigger] best@[j]).score
                        >= sorted_v@[i as int].score,
                forall|a: int, b: int|
                    #![trigger best@[a], best@[b]]
                    0 <= a <= b < best@.len() ==> best@[a].score >= best@[b].score,
                forall|a: int, b: int|
                    #![trigger best@[a], best@[b]]
                    0 <= a < b < best@.len() ==> !self.same_conn_key(best@[a], best@[b]),
                forall|k: int|
                    #![trigger sorted_v@[k]]
                    0 <= k < i ==> exists|j: int|
                        #![auto]
                        0 <= j < best@.len() && self.same_conn_key(sorted_v@[k], best@[j])
                            && best@[j].score >= sorted_v@[k].score,
            decreases sorted_v@.len() - i,
        {
            let c = sorted_v[i];
            let mut j: usize = 0;
            let mut found = false;
            while j < best.len()
                invariant
                    j <= best@.len(),
                    found ==> exists|t: int|
                        #![auto]
                        0 <= t < best@.len() && self.same_conn_key(best@[t], c),
                    !found ==> forall|t: int|
                        0 <= t < j ==> !self.same_conn_key(#[trigger] best@[t], c),
                decreases best@.len() - j,
            {
                proof {
                    assert(sorted_v@.contains(best@[j as int]));
                    let t = choose|t: int|
                        0 <= t < sorted_v@.len() && sorted_v@[t] == best@[j as int];
                    assert(best@[j as int].id < self.section_vec@.len());
                }
                if self.same_conn_key_exec(&best[j], &c) {
                    found = true;
                }
                j += 1;
            }
            if !found {
                let ghost old_best = best@;
                best.push(c);
                proof {
                    reveal(CellMatrix::same_conn_key);
                    assert(best@[best@.len() - 1] == sorted_v@[i as int]);
                    assert(sorted_v@.contains(sorted_v@[i as int]));
                    assert(self.same_conn_key(sorted_v@[i as int], best@[best@.len() - 1]));
                    assert forall|a: int, b: int|
                        #![trigger best@[a], best@[b]]
                        0 <= a <= b < best@.len() implies best@[a].score >= best@[b].score by {
                        if b < best@.len() - 1 {
                            assert(best@[a] == old_best[a] && best@[b] == old_best[b]);
                        } else if a < best@.len() - 1 {
                            assert(best@[a] == old_best[a]);
                        }
                    }
                    assert forall|j2: int|
                        0 <= j2 < best@.len() && i + 1 < sorted_v@.len() implies (
                        #[trigger] best@[j2]).score >= sorted_v@[i + 1].score by {
                        assert(sorted_v@[i as int].score >= sorted_v@[i + 1].score);
                    }
                    assert forall|k: int|
                        #![trigger sorted_v@[k]]
                        0 <= k < i + 1 implies exists|j: int|
                        #![auto]
                        0 <= j < best@.len() && self.same_conn_key(sorted_v@[k], best@[j])
                            && best@[j].score >= sorted_v@[k].score by {
                        if k < i {
                            let j = choose|j: int|
                                #![auto]
                                0 <= j < old_best.len() && self.same_conn_key(
                                    sorted_v@[k],
                                    old_best[j],
                                ) && old_best[j].score >= sorted_v@[k].score;
                            assert(best@[j] == old_best[j]);
                            assert(self.same_conn_key(sorted_v@[k], best@[j]) && best@[j].score
                                >= sorted_v@[k].score);
                        } else {
                            let j = best@.len() - 1;
                            assert(self.same_conn_key(sorted_v@[k], best@[j]) && best@[j].score
                                >= sorted_v@[k].score);
                        }
                    }
                }
            } else {
                proof {
                    reveal(CellMatrix::same_conn_key);
                    let t = choose|t: int|
                        #![auto]
                        0 <= t < best@.len() && self.same_conn_key(best@[t], c);
                    assert(best@[t].score >= sorted_v@[i as int].score);
                    assert(self.same_conn_key(sorted_v@[i as int], best@[t]));
                    assert forall|j2: int|
                        0 <= j2 < best@.len() && i + 1 < sorted_v@.len() implies (
                        #[trigger] best@[j2]).score >= sorted_v@[i + 1].score by {
                        assert(sorted_v@[i as int].score >= sorted_v@[i + 1].score);
                    }
                }
            }
            i += 1;
        }
        best
    }

    /// A section's connection candidates, sorted by descending score and
    /// thinned to the single best entry per (current neighbor id, direction)
    /// pair: every candidate is represented by a kept entry of at least its
    /// score, and no two kept entries compete.
    pub fn get_best_connections(&self, section: &Section) -> (best: Vec<Connection>)
        requires
            self.conns_ok(section.connections@),
        ensures
            forall|k: int|
                0 <= k < best@.len() ==> section.connections@.contains(#[trigger] best@[k]),
            forall|a: int, b: int|
                #![trigger best@[a], best@[b]]
                0 <= a <= b < best@.len() ==> best@[a].score >= best@[b].score,
            forall|a: int, b: int|
                #![trigger best@[a], best@[b]]
                0 <= a < b < best@.len() ==> !self.same_conn_key(best@[a], best@[b]),
            forall|k: int|
                #![trigger section.connections@[k]]
                0 <= k < section.connections@.len() ==> exists|j: int|
                    #![auto]
                    0 <= j < best@.len() && self.same_conn_key(section.connections@[k], best@[j])
                        && best@[j].score >= section.connections@[k].score,
    {
        let conns = section.get_connections();
        let sorted_v = Self::sort_connections_desc(conns);
        proof {
            assert forall|k: int| 0 <= k < sorted_v@.len() implies (#[trigger] sorted_v@[k]).id
                < self.section_vec@.len() by {
                assert(conns@.contains(sorted_v@[k]));
                let t = choose|t: int| 0 <= t < conns@.len() && conns@[t] == sorted_v@[k];
            }
        }
        let best = self.dedup_best(&sorted_v);
        proof {
            assert forall|k: int| #![trigger conns@[k]] 0 <= k < conns@.len() implies exists|j: int|
                #![auto]
                0 <= j < best@.len() && self.same_conn_key(conns@[k], best@[j]) && best@[j].score
                    >= conns@[k].score by {
                let t = choose|t: int| 0 <= t < sorted_v@.len() && sorted_v@[t] == conns@[k];
            }
            assert forall|k: int| 0 <= k < best@.len() implies section.connections@.contains(
                #[trigger] best@[k],
            ) by {
                assert(sorted_v@.contains(best@[k]));
                let t = choose|t: int| 0 <= t < sorted_v@.len() && sorted_v@[t] == best@[k];
            }
        }
        best
    }

    /// The number of breakable rock cells in a grid; carving only ever
    /// lowers it.
    pub open spec fn count_rock(s: Seq<Cell>) -> nat
        decreases s.len(),
    {
        if s.len() == 0 {
            0
        } else {
            Self::count_rock(s.drop_last()) + (if s.last() is Rock {
                1nat
            } else {
                0nat
            })
        }
    }

    /// A grid that turns rock only into non-rock never gains rock.
    pub proof fn lemma_count_rock_le(s1: Seq<Cell>, s2: Seq<Cell>)
        requires
            s1.len() == s2.len(),
            forall|i: int| 0 <= i < s2.len() && (#[trigger] s2[i]) is Rock ==> s1[i] is Rock,
        ensures
            Self::count_rock(s2) <= Self::count_rock(s1),
        decreases s1.len(),
    {
        if s1.len() > 0 {
            Self::lemma_count_rock_le(s1.drop_last(), s2.drop_last());
        }
    }

    /// Turning at least one rock cell into non-rock strictly lowers the
    /// rock count.
    pub proof fn lemma_count_rock_lt(s1: Seq<Cell>, s2: Seq<Cell>, w: int)
        requires
            s1.len() == s2.len(),
            forall|i: int| 0 <= i < s2.len() && (#[trigger] s2[i]) is Rock ==> s1[i] is Rock,
            0 <= w < s1.len(),
            s1[w] is Rock,
            !(s2[w] is Rock),
        ensures
            Self::count_rock(s2) < Self::count_rock(s1),
        decreases s1.len(),
    {
        if w == s1.len() - 1 {
            Self::lemma_count_rock_le(s1.drop_last(), s2.drop_last());
        } else {
            Self::lemma_count_rock_lt(s1.drop_last(), s2.drop_last(), w);
        }
    }

    /// Some cell of the given rectangle holds breakable rock.
    pub open spec fn has_rock(self, x: int, y: int, w: int, h: int) -> bool {
        exists|a: int, b: int|
            x <= a < x + w && y <= b < y + h && (#[trigger] self.cell_at(a, b)) is Rock
    }

    /// A grid write that turns rock only into non-rock, coordinatewise,
    /// never gains rock.
    pub proof fn lemma_count_rock_grid_le(m1: CellMatrix, m2: CellMatrix)
        requires
            m1.dims_ok(),
            m2.dims_ok(),
            m1.width == m2.width,
            m1.height == m2.height,
            forall|a: int, b: int|
                m1.in_bounds(a, b) && (#[trigger] m2.cell_at(a, b)) is Rock ==> m1.cell_at(a, b)
                    is Rock,
        ensures
            Self::count_rock(m2.cell_vector@) <= Self::count_rock(m1.cell_vector@),
    {
        assert forall|i: int|
            0 <= i < m2.cell_vector@.len() && (#[trigger] m2.cell_vector@[i]) is Rock implies
            m1.cell_vector@[i] is Rock by {
            if m1.width > 0 {
                lemma_row_major_decompose(m1.width as int, m1.height as int, i);
                let a = i % m1.width as int;
                let b = i / m1.width as int;
                assert(m2.cell_at(a, b) == m2.cell_vector@[i]);
                assert(m1.cell_at(a, b) == m1.cell_vector@[i]);
            }
        }
        Self::lemma_count_rock_le(m1.cell_vector@, m2.cell_vector@);
    }

    /// A grid write that turns at least one rock cell into non-rock, and
    /// rock only into non-rock, strictly lowers the rock count.
    pub proof fn lemma_count_rock_grid_lt(m1: CellMatrix, m2: CellMatrix, wx: int, wy: int)
        requires
            m1.dims_ok(),
            m2.dims_ok(),
            m1.width == m2.width,
            m1.height == m2.height,
            forall|a: int, b: int|
                m1.in_bounds(a, b) && (#[trigger] m2.cell_at(a, b)) is Rock ==> m1.cell_at(a, b)
                    is Rock,
            m1.in_bounds(wx, wy),
            m1.cell_at(wx, wy) is Rock,
            !(m2.cell_at(wx, wy) is Rock),
        ensures
            Self::count_rock(m2.cell_vector@) < Self::count_rock(m1.cell_vector@),
    {
        assert forall|i: int|
            0 <= i < m2.cell_vector@.len() && (#[trigger] m2.cell_vector@[i]) is Rock implies
            m1.cell_vector@[i] is Rock by {
            if m1.width > 0 {
                lemma_row_major_decompose(m1.width as int, m1.height as int, i);
                let a = i % m1.width as int;
                let b = i / m1.width as int;
                assert(m2.cell_at(a, b) == m2.cell_vector@[i]);
                assert(m1.cell_at(a, b) == m1.cell_vector@[i]);
            }
        }
        let w = wy * m1.width as int + wx;
        lemma_grid_index(m1.width as int, m1.height as int, wx, wy);
        assert(m1.cell_vector@[w] == m1.cell_at(wx, wy));
        assert(m2.cell_vector@[w] == m2.cell_at(wx, wy));
        Self::lemma_count_rock_lt(m1.cell_vector@, m2.cell_vector@, w);
    }

    /// Id validity survives a grid write whose new tags are themselves
    /// valid, and any relabeling to a live id.
    pub proof fn lemma_sections_valid_cells(m1: CellMatrix, m2: CellMatrix)
        requires
            m1.dims_ok(),
            m2.dims_ok(),
            m1.sections_valid(),
            m2.width == m1.width,
            m2.height == m1.height,
            m2.room_vec@ == m1.room_vec@,
            m2.corridor_vec@ == m1.corridor_vec@,
            m2.section_vec@.len() == m1.section_vec@.len(),
            forall|s: int|
                0 <= s < m2.section_vec@.len() ==> (#[trigger] m2.section_vec@[s]).id
                    < m2.section_vec@.len(),
            forall|a: int, b: int|
                m1.in_bounds(a, b) ==> (#[trigger] m2.cell_at(a, b) == m1.cell_at(a, b)
                    || m2.tag_valid(m2.cell_at(a, b))),
        ensures
            m2.sections_valid(),
    {
        assert forall|i: int|
            0 <= i < m2.cell_vector@.len() implies #[trigger] m2.tag_valid(
            m2.cell_vector@[i],
        ) by {
            if m1.width > 0 {
                lemma_row_major_decompose(m1.width as int, m1.height as int, i);
                let a = i % m1.width as int;
                let b = i / m1.width as int;
                assert(m2.cell_at(a, b) == m2.cell_vector@[i]);
                assert(m1.cell_at(a, b) == m1.cell_vector@[i]);
                assert(m1.tag_valid(m1.cell_vector@[i]));
            }
        }
    }

    /// Every cell with its coordinates, in row-major order.
    pub fn iter_enumerate(&self) -> (r: Vec<(Cell, u16, u16)>)
        requires
            self.dims_ok(),
        ensures
            r@.len() == self.cell_vector@.len(),
            forall|i: int|
                0 <= i < r@.len() ==> {
                    &&& (#[trigger] r@[i]).0 == self.cell_at(r@[i].1 as int, r@[i].2 as int)
                    &&& r@[i].1 < self.width
                    &&& r@[i].2 < self.height
                    &&& i == r@[i].2 as int * self.width as int + r@[i].1 as int
                },
    {
        let mut r: Vec<(Cell, u16, u16)> = Vec::new();
        let n = self.cell_vector.len();
        let mut i: usize = 0;
        while i < n
            invariant
                self.dims_ok(),
                n == self.cell_vector@.len(),
                i <= n,
                r@.len() == i,
                forall|j: int|
                    0 <= j < i ==> {
                        &&& (#[trigger] r@[j]).0 == self.cell_at(r@[j].1 as int, r@[j].2 as int)
                        &&& r@[j].1 < self.width
                        &&& r@[j].2 < self.height
                        &&& j == r@[j].2 as int * self.width as int + r@[j].1 as int
                    },
            decreases n - i,
        {
            proof {
                lemma_row_major_decompose(self.width as int, self.height as int, i as int);
            }
            let cx: u16 = (i % (self.width as usize)) as u16;
            let cy: u16 = (i / (self.width as usize)) as u16;
            let cell = self.cell_vector[i];
            r.push((cell, cx, cy));
            i += 1;
        }
        r
    }
}

/// Splitting a row-major index into coordinates stays in range and
/// recombines to the same index.
pub proof fn lemma_row_major_decompose(w: int, h: int, i: int)
    requires
        0 <= i < w * h,
        0 < w,
    ensures
        0 <= i % w < w,
        0 <= i / w < h,
        (i / w) * w + (i % w) == i,
{
    vstd::arithmetic::div_mod::lemma_fundamental_div_mod(i, w);
    vstd::arithmetic::div_mod::lemma_mod_bound(i, w);
    assert(0 <= i / w < h && (i / w) * w + (i % w) == i) by (nonlinear_arith)
        requires
            0 <= i < w * h,
            0 < w,
            i == w * (i / w) + (i % w),
            0 <= i % w < w,
    ;
}

} // verus!
