//! Rectangle-rejection room placement.
//!
//! Each attempt draws a size and a position, and places the room only when
//! its margin-expanded rectangle covers nothing but breakable rock. That
//! check is what keeps any two placed rooms' margin-expanded rectangles
//! from overlapping.

use vstd::prelude::*;

use crate::cell_matrix::Cell;
use crate::cell_matrix::CellMatrix;
use crate::map_generator::MapShape;
use crate::rng::rng_below;
use crate::rng::GenRng;
use crate::room::rooms_collide;
use crate::room::Room;

verus! {

/// Room `k` is placed inside the grid, has at least one cell, and all of
/// its cells carry that very room's tag.
pub open spec fn room_wf(m: CellMatrix, k: int) -> bool {
    let r = m.room_vec@[k];
    &&& r.width >= 1 && r.height >= 1
    &&& r.x + r.width <= m.width && r.y + r.height <= m.height
    &&& forall|a: int, b: int|
        r.x <= a < r.x + r.width && r.y <= b < r.y + r.height ==> #[trigger] m.cell_at(a, b)
            == Cell::Room(k as usize)
}

/// Every placed room is well-placed.
pub open spec fn rooms_wf(m: CellMatrix) -> bool {
    forall|k: int| 0 <= k < m.room_vec@.len() ==> #[trigger] room_wf(m, k)
}

/// No two placed rooms' margin-expanded rectangles overlap.
pub open spec fn rooms_separated(m: CellMatrix, mh: int, mv: int) -> bool {
    forall|i: int, j: int|
        0 <= i < m.room_vec@.len() && 0 <= j < m.room_vec@.len() && i != j ==> !rooms_collide(
            #[trigger] m.room_vec@[i],
            #[trigger] m.room_vec@[j],
            mh,
            mv,
        )
}

/// `(px, py)` lies in the rectangle of `a` expanded by the margins.
pub open spec fn point_in_expansion(a: Room, mh: int, mv: int, px: int, py: int) -> bool {
    a.x - mh <= px < a.x + a.width + mh && a.y - mv <= py < a.y + a.height + mv
}

/// `(px, py)` lies in the rectangle of `b`.
pub open spec fn point_in_room(b: Room, px: int, py: int) -> bool {
    b.x <= px < b.x + b.width && b.y <= py < b.y + b.height
}

/// When two margin-expanded rectangles overlap, some cell lies both in the
/// expansion of `a` and inside `b`.
pub proof fn lemma_collide_overlap(a: Room, b: Room, mh: int, mv: int)
    requires
        rooms_collide(a, b, mh, mv),
        mh >= 1,
        mv >= 1,
        b.width >= 1,
        b.height >= 1,
    ensures
        exists|px: int, py: int|
            #[trigger] point_in_expansion(a, mh, mv, px, py) && #[trigger] point_in_room(b, px, py),
{
    let px = if a.x - mh >= b.x {
        a.x - mh
    } else {
        b.x as int
    };
    let py = if a.y - mv >= b.y {
        a.y - mv
    } else {
        b.y as int
    };
    assert(point_in_expansion(a, mh, mv, px, py) && point_in_room(b, px, py));
}

/// Whether the room's rectangle lies inside the circle of the given radius
/// centered at `(radius, radius)`.
pub open spec fn within_circle(a: Room, radius: int) -> bool {
    let dx = if radius - a.x >= a.x + a.width - radius {
        radius - a.x
    } else {
        a.x + a.width - radius
    };
    let dy = if radius - a.y >= a.y + a.height - radius {
        radius - a.y
    } else {
        a.y + a.height - radius
    };
    radius * radius >= dx * dx + dy * dy
}

/// Whether a room fits the circular placement region.
pub fn is_within_circle_shape(a: &Room, radius: u16) -> (r: bool)
    ensures
        r == within_circle(*a, radius as int),
{
    let dx: i64 = {
        let left: i64 = radius as i64 - a.x as i64;
        let right: i64 = a.x as i64 + a.width as i64 - radius as i64;
        if left >= right {
            left
        } else {
            right
        }
    };
    let dy: i64 = {
        let top: i64 = radius as i64 - a.y as i64;
        let bottom: i64 = a.y as i64 + a.height as i64 - radius as i64;
        if top >= bottom {
            top
        } else {
            bottom
        }
    };
    proof {
        assert(0 <= dx * dx <= 0x10_0000_0000) by (nonlinear_arith)
            requires
                -0x40000 <= dx <= 0x40000,
        ;
        assert(0 <= dy * dy <= 0x10_0000_0000) by (nonlinear_arith)
            requires
                -0x40000 <= dy <= 0x40000,
        ;
        assert(0 <= (radius as i64) * (radius as i64) <= 0x1_0000_0000) by (nonlinear_arith)
            requires
                0 <= radius <= 0x1_0000,
        ;
    }
    (radius as i64) * (radius as i64) >= dx * dx + dy * dy
}

/// The placement scan's probe: anything but breakable rock blocks a room.
fn not_rock(c: Cell) -> (b: bool)
    ensures
        b == (c !is Rock),
{
    !c.is_rock()
}

/// Attempt `iterations` room placements. Placed rooms never overlap once
/// expanded by the margins, every room cell is tagged with its room, and
/// only rock cells are written. Each placed room gets a fresh section.
#[verifier::loop_isolation(false)]
pub fn generate_rooms(
    map: &mut CellMatrix,
    room_min: (u16, u16),
    room_max: (u16, u16),
    margins: (u8, u8),
    iterations: u32,
    shape: MapShape,
    rng: &mut GenRng,
)
    requires
        old(map).dims_ok(),
        old(map).sections_valid(),
        old(map).room_vec@.len() == 0,
        old(map).section_vec@.len() == 0,
        1 <= room_min.0 <= room_max.0 <= old(map).width,
        1 <= room_min.1 <= room_max.1 <= old(map).height,
        margins.0 >= 1,
        margins.1 >= 1,
        room_max.0 + 2 * margins.0 <= 0xFFFF,
        room_max.1 + 2 * margins.1 <= 0xFFFF,
    ensures
        final(map).dims_ok(),
        final(map).sections_valid(),
        final(map).width == old(map).width,
        final(map).height == old(map).height,
        final(map).corridor_vec == old(map).corridor_vec,
        final(map).corridor_tree == old(map).corridor_tree,
        rooms_wf(*final(map)),
        rooms_separated(*final(map), margins.0 as int, margins.1 as int),
        forall|a: int, b: int|
            #[trigger] final(map).cell_at(a, b) == old(map).cell_at(a, b) || (old(map).cell_at(
                a,
                b,
            ) is Rock && final(map).cell_at(a, b) is Room),
        forall|k: int|
            0 <= k < final(map).room_vec@.len() ==> (#[trigger] final(map).room_vec@[k]).width
                >= room_min.0 && final(map).room_vec@[k].height >= room_min.1
                && final(map).room_vec@[k].width <= room_max.0 && final(map).room_vec@[k].height
                <= room_max.1,
        forall|j: int|
            0 <= j < final(map).section_vec@.len() ==> (
            #[trigger] final(map).section_vec@[j]).connections@.len() == 0,
        crate::sections::ids_identity(*final(map)),
        final(map).room_vec@.len() <= iterations,
        final(map).section_vec@.len() == final(map).room_vec@.len(),
        forall|k: int|
            0 <= k < final(map).room_vec@.len() ==> (#[trigger] final(map).room_vec@[k]).section_id
                == k,
{
    let mut iter: u32 = 0;
    while iter < iterations
        invariant
            map.dims_ok(),
            map.sections_valid(),
            map.width == old(map).width,
            map.height == old(map).height,
            map.corridor_vec == old(map).corridor_vec,
            map.corridor_tree == old(map).corridor_tree,
            rooms_wf(*map),
            rooms_separated(*map, margins.0 as int, margins.1 as int),
            forall|a: int, b: int|
                #[trigger] map.cell_at(a, b) == old(map).cell_at(a, b) || (old(map).cell_at(a, b)
                    is Rock && map.cell_at(a, b) is Room),
            forall|k: int|
                0 <= k < map.room_vec@.len() ==> (#[trigger] map.room_vec@[k]).width >= room_min.0
                    && map.room_vec@[k].height >= room_min.1 && map.room_vec@[k].width
                    <= room_max.0 && map.room_vec@[k].height <= room_max.1,
            forall|j: int|
                0 <= j < map.section_vec@.len() ==> (
                #[trigger] map.section_vec@[j]).connections@.len() == 0,
            crate::sections::ids_identity(*map),
            iter <= iterations,
            map.room_vec@.len() <= iter,
            map.section_vec@.len() == map.room_vec@.len(),
            forall|k: int|
                0 <= k < map.room_vec@.len() ==> (#[trigger] map.room_vec@[k]).section_id == k,
        decreases iterations - iter,
    {
        let room_width = rng_below(rng, (room_max.0 - room_min.0) as u32 + 1) as u16 + room_min.0;
        let room_height = rng_below(rng, (room_max.1 - room_min.1) as u32 + 1) as u16 + room_min.1;
        let x = rng_below(rng, (map.width - room_width) as u32 + 1) as u16;
        let y = rng_below(rng, (map.height - room_height) as u32 + 1) as u16;

        let inside_region = match shape {
            MapShape::Square => true,
            MapShape::Circle => {
                let radius = if map.width < map.height {
                    map.width / 2
                } else {
                    map.height / 2
                };
                let probe = Room { width: room_width, height: room_height, x, y, section_id: 0 };
                is_within_circle_shape(&probe, radius)
            },
        };

        if inside_region {
            // The room goes in only when its margin-expanded rectangle is
            // pure rock; any other cell, or the map edge, rejects it.
            let scan = map.rect_is(
                x as i32 - margins.0 as i32,
                y as i32 - margins.1 as i32,
                room_width + 2 * (margins.0 as u16),
                room_height + 2 * (margins.1 as u16),
                not_rock,
            );
            match scan {
                Some(_) => {},
                None => {
                    let ghost pre = *map;
                    let ghost ex0 = x as int - margins.0 as int;
                    let ghost ey0 = y as int - margins.1 as int;
                    let ghost ex1 = x as int + room_width as int + margins.0 as int;
                    let ghost ey1 = y as int + room_height as int + margins.1 as int;
                    proof {
                        // Everything the scan saw is rock, hence in bounds.
                        assert forall|a: int, b: int|
                            ex0 <= a < ex1 && ey0 <= b < ey1 implies (#[trigger] pre.cell_at(a, b))
                            is Rock && pre.in_bounds(a, b) by {
                            assert(pre.cell_at(a, b) is Rock);
                        }
                        assert(pre.cell_at(
                            x as int + room_width as int + margins.0 as int - 1,
                            y as int,
                        ) is Rock);
                        assert(pre.cell_at(
                            x as int,
                            y as int + room_height as int + margins.1 as int - 1,
                        ) is Rock);
                    }
                    let section_id = map.new_section();
                    let room = Room { width: room_width, height: room_height, x, y, section_id };
                    let idx = map.push_room(room);
                    map.set_rect(Cell::Room(idx), x, y, room_width, room_height);
                    proof {
                        assert forall|k: int| 0 <= k < map.room_vec@.len() implies #[trigger] room_wf(
                            *map,
                            k,
                        ) by {
                            if k < idx {
                                assert(room_wf(pre, k));
                                let rk = map.room_vec@[k];
                                assert forall|a: int, b: int|
                                    rk.x <= a < rk.x + rk.width && rk.y <= b < rk.y + rk.height
                                    implies #[trigger] map.cell_at(a, b) == Cell::Room(
                                    k as usize,
                                ) by {
                                    assert(pre.cell_at(a, b) == Cell::Room(k as usize));
                                    if x as int <= a < x as int + room_width as int
                                        && y as int <= b < y as int + room_height as int {
                                        assert(pre.cell_at(a, b) is Rock);
                                    }
                                }
                            }
                        }
                        assert forall|i: int, j: int|
                            0 <= i < map.room_vec@.len() && 0 <= j < map.room_vec@.len() && i != j
                            implies !rooms_collide(
                            #[trigger] map.room_vec@[i],
                            #[trigger] map.room_vec@[j],
                            margins.0 as int,
                            margins.1 as int,
                        ) by {
                            let mh = margins.0 as int;
                            let mv = margins.1 as int;
                            if i == idx || j == idx {
                                let k = if i == idx {
                                    j
                                } else {
                                    i
                                };
                                if k != idx {
                                    assert(room_wf(pre, k));
                                    let rk = map.room_vec@[k];
                                    if rooms_collide(room, rk, mh, mv) {
                                        lemma_collide_overlap(room, rk, mh, mv);
                                        let (px, py) = choose|px: int, py: int|
                                            #[trigger] point_in_expansion(room, mh, mv, px, py)
                                                && #[trigger] point_in_room(rk, px, py);
                                        assert(pre.cell_at(px, py) is Rock);
                                        assert(pre.cell_at(px, py) is Room);
                                    }
                                    crate::room::lemma_collide_symmetric(room, rk, mh, mv);
                                }
                            } else {
                                assert(!rooms_collide(pre.room_vec@[i], pre.room_vec@[j], mh, mv));
                            }
                        }
                        assert forall|a: int, b: int| #[trigger]
                            map.cell_at(a, b) == old(map).cell_at(a, b) || (old(map).cell_at(a, b)
                            is Rock && map.cell_at(a, b) is Room) by {
                            if x as int <= a < x as int + room_width as int && y as int <= b
                                < y as int + room_height as int {
                                assert(pre.cell_at(a, b) is Rock);
                                assert(pre.cell_at(a, b) == old(map).cell_at(a, b) || (old(
                                    map,
                                ).cell_at(a, b) is Rock && pre.cell_at(a, b) is Room));
                            } else {
                                assert(map.cell_at(a, b) == pre.cell_at(a, b));
                            }
                        }
                        assert forall|i: int|
                            0 <= i < map.cell_vector@.len() implies #[trigger] map.tag_valid(
                            map.cell_vector@[i],
                        ) by {
                            crate::cell_matrix::lemma_row_major_decompose(
                                map.width as int,
                                map.height as int,
                                i,
                            );
                            let a = i % map.width as int;
                            let b = i / map.width as int;
                            assert(map.cell_vector@[i] == map.cell_at(a, b));
                            assert(pre.tag_valid(pre.cell_vector@[i]));
                            assert(pre.cell_vector@[i] == pre.cell_at(a, b));
                        }
                    }
                },
            }
        }
        iter += 1;
    }
}

} // verus!
