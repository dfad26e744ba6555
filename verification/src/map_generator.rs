//! The fluent configuration builder around map generation, and the
//! generation pipeline itself: fill, room placement, corridor carving,
//! section merging.

use vstd::prelude::*;

use crate::cell_matrix::Cell;
use crate::cell_matrix::CellMatrix;
use crate::labyrinth_generator::LabyrinthGenerator;
use crate::room_generator::generate_rooms;
use crate::room_generator::rooms_separated;
use crate::rng::rng_from_seed;
use crate::sections::SectionMerger;

verus! {

/// Whether `(x, y)` lies inside the ellipse inscribed in a `w` x `h` map:
/// the breakable interior, surrounded by unbreakable solid rock.
pub open spec fn in_ellipse(w: int, h: int, x: int, y: int) -> bool {
    (2 * x - w) * (2 * x - w) * h * h + (2 * y - h) * (2 * y - h) * w * w <= w * w * h * h
}

/// The ellipse test, in exact integer arithmetic.
fn in_ellipse_exec(w: u16, h: u16, x: u16, y: u16) -> (r: bool)
    ensures
        r == in_ellipse(w as int, h as int, x as int, y as int),
{
    let dx: i64 = 2 * (x as i64) - w as i64;
    let dy: i64 = 2 * (y as i64) - h as i64;
    proof {
        assert(0 <= (dx as int) * (dx as int) <= 0x4_0000_0000) by (nonlinear_arith)
            requires
                -0x2_0000 <= dx <= 0x2_0000,
        ;
        assert(0 <= (dy as int) * (dy as int) <= 0x4_0000_0000) by (nonlinear_arith)
            requires
                -0x2_0000 <= dy <= 0x2_0000,
        ;
    }
    let dx2: i128 = (dx as i128) * (dx as i128);
    let dy2: i128 = (dy as i128) * (dy as i128);
    proof {
        assert(0 <= (dx2 as int) * (h as int) <= 0x4_0000_0000_0000) by (nonlinear_arith)
            requires
                0 <= dx2 <= 0x4_0000_0000,
                0 <= h <= 0x1_0000,
        ;
        assert(0 <= (dy2 as int) * (w as int) <= 0x4_0000_0000_0000) by (nonlinear_arith)
            requires
                0 <= dy2 <= 0x4_0000_0000,
                0 <= w <= 0x1_0000,
        ;
        assert(0 <= (dx2 as int) * (h as int) * (h as int) <= 0x4_0000_0000_0000_0000_0000)
            by (nonlinear_arith)
            requires
                0 <= dx2 <= 0x4_0000_0000,
                0 <= h <= 0x1_0000,
        ;
        assert(0 <= (dy2 as int) * (w as int) * (w as int) <= 0x4_0000_0000_0000_0000_0000)
            by (nonlinear_arith)
            requires
                0 <= dy2 <= 0x4_0000_0000,
                0 <= w <= 0x1_0000,
        ;
        assert(0 <= (w as int) * (w as int) <= 0x1_0000_0000) by (nonlinear_arith)
            requires
                0 <= w <= 0x1_0000,
        ;
        assert(0 <= (w as int) * (w as int) * (h as int) <= 0x1_0000_0000_0000) by (nonlinear_arith)
            requires
                0 <= w <= 0x1_0000,
                0 <= h <= 0x1_0000,
        ;
        assert(0 <= (w as int) * (w as int) * (h as int) * (h as int)
            <= 0x1_0000_0000_0000_0000) by (nonlinear_arith)
            requires
                0 <= w <= 0x1_0000,
                0 <= h <= 0x1_0000,
        ;
    }
    let lhs: i128 = dx2 * (h as i128) * (h as i128) + dy2 * (w as i128) * (w as i128);
    let rhs: i128 = (w as i128) * (w as i128) * (h as i128) * (h as i128);
    lhs <= rhs
}

/// The region rooms are placed into.
#[derive(Clone, Copy, Debug, PartialEq, Eq, Structural)]
pub enum MapShape {
    Square,
    Circle,
}

/// The full generation configuration. The corridor errantness is a
/// per-mille probability: `0` always keeps the walk's momentum, `1000`
/// redraws the direction at every step.
pub struct GeneratorOptions {
    pub width: u16,
    pub height: u16,
    pub room_min: (u16, u16),
    pub room_max: (u16, u16),
    pub iterations: u32,
    pub shape: MapShape,
    pub corridor_width: u8,
    pub corridor_height: u8,
    pub margins: (u8, u8),
    pub corridor_errantness: u32,
    pub prune_length: u32,
    pub seed: u64,
}

impl GeneratorOptions {
    /// What every phase of generation relies on: positive margins and
    /// corridor size, and rooms that fit the map.
    pub open spec fn wf(self) -> bool {
        &&& self.margins.0 >= 1 && self.margins.1 >= 1
        &&& self.corridor_width >= 1 && self.corridor_height >= 1
        &&& 1 <= self.room_min.0 <= self.room_max.0 <= self.width
        &&& 1 <= self.room_min.1 <= self.room_max.1 <= self.height
        &&& self.room_max.0 + 2 * self.margins.0 <= 0xFFFF
        &&& self.room_max.1 + 2 * self.margins.1 <= 0xFFFF
    }
}

/// The builder: start from `new`, adjust, then call `generate`.
pub struct Generator {
    pub options: GeneratorOptions,
}

impl Generator {
    /// The default configuration: a 64 x 32 map of 4..8-sized rooms, and
    /// 2 x 2 corridors that redraw their direction three times out of four.
    pub fn new() -> (g: Generator)
        ensures
            g.options.wf(),
            g.options.width == 64,
            g.options.height == 32,
            g.options.room_min == (4u16, 4u16),
            g.options.room_max == (8u16, 8u16),
            g.options.iterations == 64,
            g.options.shape == MapShape::Square,
            g.options.corridor_width == 2,
            g.options.corridor_height == 2,
            g.options.corridor_errantness == 750,
            g.options.margins == (1u8, 3u8),
            g.options.prune_length == 4,
            g.options.seed == 0,
    {
        Generator {
            options: GeneratorOptions {
                width: 64,
                height: 32,
                room_min: (4, 4),
                room_max: (8, 8),
                iterations: 64,
                shape: MapShape::Square,
                corridor_width: 2,
                corridor_height: 2,
                corridor_errantness: 750,
                margins: (1, 3),
                prune_length: 4,
                seed: 0,
            },
        }
    }

    /// Set the map dimensions. Rooms must still fit.
    pub fn size(self, width: u16, height: u16) -> (g: Generator)
        requires
            self.options.room_max.0 <= width,
            self.options.room_max.1 <= height,
        ensures
            g.options == (GeneratorOptions { width, height, ..self.options }),
            self.options.wf() ==> g.options.wf(),
    {
        let mut options = self.options;
        options.width = width;
        options.height = height;
        Generator { options }
    }

    /// Set the room placement region.
    pub fn shape(self, shape: MapShape) -> (g: Generator)
        ensures
            g.options == (GeneratorOptions { shape, ..self.options }),
            self.options.wf() ==> g.options.wf(),
    {
        let mut options = self.options;
        options.shape = shape;
        Generator { options }
    }

    /// Set the number of room placement attempts.
    pub fn iterations(self, iterations: u32) -> (g: Generator)
        ensures
            g.options == (GeneratorOptions { iterations, ..self.options }),
            self.options.wf() ==> g.options.wf(),
    {
        let mut options = self.options;
        options.iterations = iterations;
        Generator { options }
    }

    /// Set the room size range; rooms must have at least one cell and fit
    /// the map with room for the margins.
    pub fn room_size(self, min: (u16, u16), max: (u16, u16)) -> (g: Generator)
        requires
            1 <= min.0 <= max.0 <= self.options.width,
            1 <= min.1 <= max.1 <= self.options.height,
            max.0 + 2 * self.options.margins.0 <= 0xFFFF,
            max.1 + 2 * self.options.margins.1 <= 0xFFFF,
        ensures
            g.options == (GeneratorOptions { room_min: min, room_max: max, ..self.options }),
            self.options.wf() ==> g.options.wf(),
    {
        let mut options = self.options;
        options.room_min = min;
        options.room_max = max;
        Generator { options }
    }

    /// Set the distance kept between rooms and corridors. Both margins must
    /// be greater than zero.
    pub fn margins(self, horizontal: u8, vertical: u8) -> (g: Generator)
        requires
            horizontal > 0,
            vertical > 0,
            self.options.room_max.0 + 2 * horizontal <= 0xFFFF,
            self.options.room_max.1 + 2 * vertical <= 0xFFFF,
        ensures
            g.options == (GeneratorOptions { margins: (horizontal, vertical), ..self.options }),
            self.options.wf() ==> g.options.wf(),
    {
        let mut options = self.options;
        options.margins = (horizontal, vertical);
        Generator { options }
    }

    /// Set the corridor footprint; both sides must be greater than zero.
    pub fn corridor_size(self, width: u8, height: u8) -> (g: Generator)
        requires
            width > 0,
            height > 0,
        ensures
            g.options == (GeneratorOptions {
                corridor_width: width,
                corridor_height: height,
                ..self.options
            }),
            self.options.wf() ==> g.options.wf(),
    {
        let mut options = self.options;
        options.corridor_width = width;
        options.corridor_height = height;
        Generator { options }
    }

    /// Set the probability, in thousandths, that a carving step abandons
    /// its momentum and draws a fresh direction.
    pub fn corridor_errantness(self, errantness: u32) -> (g: Generator)
        requires
            errantness <= 1000,
        ensures
            g.options == (GeneratorOptions { corridor_errantness: errantness, ..self.options }),
            self.options.wf() ==> g.options.wf(),
    {
        let mut options = self.options;
        options.corridor_errantness = errantness;
        Generator { options }
    }

    /// Set the branch depth below which a dead-end corridor may be pruned.
    pub fn prune_length(self, prune_length: u32) -> (g: Generator)
        ensures
            g.options == (GeneratorOptions { prune_length, ..self.options }),
            self.options.wf() ==> g.options.wf(),
    {
        let mut options = self.options;
        options.prune_length = prune_length;
        Generator { options }
    }

    /// Set the generator seed; the same configuration and seed reproduce
    /// the same map.
    pub fn seed(self, seed: u64) -> (g: Generator)
        ensures
            g.options == (GeneratorOptions { seed, ..self.options }),
            self.options.wf() ==> g.options.wf(),
    {
        let mut options = self.options;
        options.seed = seed;
        Generator { options }
    }

    /// Run the whole pipeline: fill the elliptical interior with breakable
    /// rock, place rooms, carve corridors, then merge sections and prune
    /// dead ends. Every id in the result indexes a live entry; no two
    /// rooms' margin-expanded rectangles overlap; exactly the inscribed
    /// ellipse was opened for digging; carving ran until no suitable
    /// origin remained; and every neighbor the root section discovered
    /// ends up carrying the root's id.
    #[verifier::loop_isolation(false)]
    #[verifier::rlimit(100)]
    pub fn generate(self) -> (m: CellMatrix)
        requires
            self.options.wf(),
        ensures
            m.width == self.options.width,
            m.height == self.options.height,
            m.dims_ok(),
            m.sections_valid(),
            m.corridor_tree.wf(),
            rooms_separated(m, self.options.margins.0 as int, self.options.margins.1 as int),
            forall|k: int|
                0 <= k < m.room_vec@.len() ==> (#[trigger] m.room_vec@[k]).width
                    >= self.options.room_min.0 && m.room_vec@[k].height
                    >= self.options.room_min.1 && m.room_vec@[k].width <= self.options.room_max.0
                    && m.room_vec@[k].height <= self.options.room_max.1,
            forall|x: int, y: int|
                0 <= x < self.options.width as int && 0 <= y < self.options.height as int
                    ==> (in_ellipse(self.options.width as int, self.options.height as int, x, y)
                    == !((#[trigger] m.cell_at(x, y)) is SolidRock)),
            forall|px: int, py: int|
                0 <= px < m.width as int && 0 <= py < m.height as int
                    ==> !crate::labyrinth_generator::suitable_location(
                    m,
                    px,
                    py,
                    self.options.corridor_width as int,
                    self.options.corridor_height as int,
                    self.options.margins.0 as int,
                    self.options.margins.1 as int,
                    self.options.margins.0 as int,
                    self.options.margins.1 as int,
                ),
            crate::sections::root_neighbors_merged(m),
    {
        let options = self.options;
        let mut map = CellMatrix::new(options.width, options.height, Cell::SolidRock);

        // The breakable interior is the inscribed ellipse; the border and
        // corners stay unbreakable.
        let mut y: u16 = 0;
        while y < options.height
            invariant
                y <= options.height,
                map.dims_ok(),
                map.width == options.width,
                map.height == options.height,
                map.room_vec@.len() == 0,
                map.corridor_vec@.len() == 0,
                map.section_vec@.len() == 0,
                map.corridor_tree.nodes@.len() == 0,
                map.corridor_tree.roots@.len() == 0,
                map.corridor_tree.wf(),
                forall|a: int, b: int|
                    map.in_bounds(a, b) ==> #[trigger] map.cell_at(a, b) == (if b < y as int
                        && in_ellipse(options.width as int, options.height as int, a, b) {
                        Cell::Rock
                    } else {
                        Cell::SolidRock
                    }),
            decreases options.height - y,
        {
            let mut x: u16 = 0;
            while x < options.width
                invariant
                    y < options.height,
                    x <= options.width,
                    map.dims_ok(),
                    map.width == options.width,
                    map.height == options.height,
                    map.room_vec@.len() == 0,
                    map.corridor_vec@.len() == 0,
                    map.section_vec@.len() == 0,
                    map.corridor_tree.nodes@.len() == 0,
                    map.corridor_tree.roots@.len() == 0,
                    map.corridor_tree.wf(),
                    forall|a: int, b: int|
                        map.in_bounds(a, b) ==> #[trigger] map.cell_at(a, b) == (if (b < y as int
                            || (b == y as int && a < x as int)) && in_ellipse(
                            options.width as int,
                            options.height as int,
                            a,
                            b,
                        ) {
                            Cell::Rock
                        } else {
                            Cell::SolidRock
                        }),
                decreases options.width - x,
            {
                if in_ellipse_exec(options.width, options.height, x, y) {
                    map.set(x, y, Cell::Rock);
                }
                x += 1;
            }
            y += 1;
        }
        let ghost filled = map;
        proof {
            assert forall|i: int|
                0 <= i < map.cell_vector@.len() implies #[trigger] map.tag_valid(
                map.cell_vector@[i],
            ) by {
                crate::cell_matrix::lemma_row_major_decompose(
                    map.width as int,
                    map.height as int,
                    i,
                );
                let a = i % map.width as int;
                let b = i / map.width as int;
                assert(map.cell_vector@[i] == map.cell_at(a, b));
            }
        }

        let mut rng = rng_from_seed(options.seed);
        generate_rooms(
            &mut map,
            options.room_min,
            options.room_max,
            options.margins,
            options.iterations,
            options.shape,
            &mut rng,
        );
        let ghost placed = map;

        let carver = LabyrinthGenerator::new(
            map,
            options.corridor_width,
            options.corridor_height,
            options.corridor_errantness,
            options.margins,
            rng,
        );
        let carved = carver.generate();
        let ghost carved_g = carved;

        let merger = SectionMerger::new(
            carved,
            options.margins,
            (options.corridor_width, options.corridor_height),
            options.prune_length,
        );
        proof {
            assert forall|j: int, k: int|
                0 <= j < merger.map.section_vec@.len() && 0 <= k
                    < merger.map.section_vec@[j].connections@.len() implies crate::sections::conn_valid(
                merger.map,
                #[trigger] merger.map.section_vec@[j].connections@[k],
                merger.corridor_size,
                merger.margins,
            ) by {
                if j < placed.section_vec@.len() {
                    assert(carved_g.section_vec@[j] == placed.section_vec@[j]);
                    assert(carved_g.section_vec@[j].connections@.len() == 0);
                } else {
                    assert(carved_g.section_vec@[j].connections@.len() == 0);
                }
            }
            crate::corridor_tree::lemma_attached_closed(merger.map.corridor_tree);
            assert(merger.footprints_ok()) by {
                assert forall|i: int, a: int, b: int|
                    #![trigger merger.map.corridor_tree.nodes@[i], merger.map.cell_at(a, b)]
                    0 <= i < merger.map.corridor_tree.nodes@.len()
                        && merger.map.corridor_tree.nodes@[i].x <= a
                        < merger.map.corridor_tree.nodes@[i].x + merger.corridor_size.0
                        && merger.map.corridor_tree.nodes@[i].y <= b
                        < merger.map.corridor_tree.nodes@[i].y + merger.corridor_size.1 implies (
                    merger.map.cell_at(a, b) is Corridor || merger.map.cell_at(a, b)
                        is Removed) by {
                    assert(carved_g.cell_at(a, b) is Corridor);
                }
            }
        }
        let result = merger.generate();
        proof {
            assert(result.room_vec == placed.room_vec);
            assert forall|i: int, j: int|
                0 <= i < result.room_vec@.len() && 0 <= j < result.room_vec@.len() && i != j
                implies !crate::room::rooms_collide(
                #[trigger] result.room_vec@[i],
                #[trigger] result.room_vec@[j],
                options.margins.0 as int,
                options.margins.1 as int,
            ) by {
                assert(result.room_vec@[i] == placed.room_vec@[i]);
                assert(result.room_vec@[j] == placed.room_vec@[j]);
                assert(!crate::room::rooms_collide(
                    placed.room_vec@[i],
                    placed.room_vec@[j],
                    options.margins.0 as int,
                    options.margins.1 as int,
                ));
            }
            assert forall|k: int|
                0 <= k < result.room_vec@.len() implies (#[trigger] result.room_vec@[k]).width
                >= options.room_min.0 && result.room_vec@[k].height >= options.room_min.1
                && result.room_vec@[k].width <= options.room_max.0 && result.room_vec@[k].height
                <= options.room_max.1 by {
                assert(result.room_vec@[k] == placed.room_vec@[k]);
            }
            // Exactly the inscribed ellipse was opened for digging: no
            // later phase ever writes the unbreakable sentinel, or touches
            // one.
            assert forall|x: int, y: int|
                0 <= x < options.width as int && 0 <= y < options.height as int implies (
            in_ellipse(options.width as int, options.height as int, x, y) == !((
            #[trigger] result.cell_at(x, y)) is SolidRock)) by {
                let w = options.width as int;
                let h = options.height as int;
                assert(filled.cell_at(x, y) == (if in_ellipse(w, h, x, y) {
                    Cell::Rock
                } else {
                    Cell::SolidRock
                }));
                assert(placed.cell_at(x, y) == filled.cell_at(x, y) || (filled.cell_at(x, y)
                    is Rock && placed.cell_at(x, y) is Room));
                assert(carved_g.cell_at(x, y) == placed.cell_at(x, y) || (placed.cell_at(x, y)
                    is Rock && carved_g.cell_at(x, y) is Corridor));
                if in_ellipse(w, h, x, y) {
                    assert(!(carved_g.cell_at(x, y) is SolidRock));
                    if result.cell_at(x, y) != carved_g.cell_at(x, y) {
                        assert(result.cell_at(x, y) is Connection || result.cell_at(x, y)
                            is Removed);
                    }
                } else {
                    assert(carved_g.cell_at(x, y) is SolidRock);
                    if result.cell_at(x, y) != carved_g.cell_at(x, y) {
                        assert(carved_g.cell_at(x, y) is Rock || carved_g.cell_at(x, y)
                            is Corridor || carved_g.cell_at(x, y) is Removed);
                        assert(false);
                    }
                }
            }
            // Carving ran to exhaustion, and merging only ever blocks a
            // position further: no suitable corridor origin remains.
            let cwi = options.corridor_width as int;
            let chi = options.corridor_height as int;
            let mh = options.margins.0 as int;
            let mv = options.margins.1 as int;
            assert forall|px: int, py: int|
                0 <= px < result.width as int && 0 <= py < result.height as int implies
                !crate::labyrinth_generator::suitable_location(
                result,
                px,
                py,
                cwi,
                chi,
                mh,
                mv,
                mh,
                mv,
            ) by {
                if crate::labyrinth_generator::suitable_location(
                    result,
                    px,
                    py,
                    cwi,
                    chi,
                    mh,
                    mv,
                    mh,
                    mv,
                ) {
                    assert forall|a: int, b: int|
                        px - mh <= a < px + cwi + mh && py - mv <= b < py + chi + mv implies ((
                    #[trigger] carved_g.cell_at(a, b)) is Rock || carved_g.cell_at(a, b)
                        is SolidRock) by {
                        assert(result.cell_at(a, b) is Rock || result.cell_at(a, b) is SolidRock);
                        if result.cell_at(a, b) != carved_g.cell_at(a, b) {
                            assert(result.cell_at(a, b) is Connection || result.cell_at(a, b)
                                is Removed);
                            assert(false);
                        }
                    }
                    assert forall|a: int, b: int|
                        px <= a < px + cwi && py <= b < py + chi implies (
                    #[trigger] carved_g.cell_at(a, b)) is Rock by {
                        assert(result.cell_at(a, b) is Rock);
                        if result.cell_at(a, b) != carved_g.cell_at(a, b) {
                            assert(false);
                        }
                    }
                    assert(crate::labyrinth_generator::suitable_location(
                        carved_g,
                        px,
                        py,
                        cwi,
                        chi,
                        mh,
                        mv,
                        mh,
                        mv,
                    ));
                    assert(false);
                }
            }
            // Propagation from freshly numbered sections merged every
            // neighbor the root section discovered.
            assert(crate::sections::ids_identity(placed));
            assert(crate::sections::ids_identity(carved_g));
            assert(crate::sections::root_neighbors_merged(result));
        }
        result
    }
}

} // verus!
