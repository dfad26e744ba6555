//! Scenario tests for gap discovery, propagation, pruning and the full
//! pipeline.

use daedalus::cell_matrix::Cell;
use daedalus::cell_matrix::CellMatrix;
use daedalus::corridor_tree::CorridorNode;
use daedalus::direction::Direction;
use daedalus::map_generator::MapShape;
use daedalus::room::Room;
use daedalus::sections::SectionMerger;
use daedalus::sections::SCORE_MAX;
use daedalus::Generator;

/// An 8x8 map with two 3x3 rooms at (0,0) and (5,5) and a carved corridor
/// strand in the column between them, everything else breakable rock.
fn two_rooms_and_a_corridor() -> CellMatrix {
    let mut map = CellMatrix::new(8, 8, Cell::Rock);
    let s0 = map.new_section();
    let r0 = map.push_room(Room { x: 0, y: 0, width: 3, height: 3, section_id: s0 });
    map.set_rect(Cell::Room(r0), 0, 0, 3, 3);
    let s1 = map.new_section();
    let r1 = map.push_room(Room { x: 5, y: 5, width: 3, height: 3, section_id: s1 });
    map.set_rect(Cell::Room(r1), 5, 5, 3, 3);
    let c = map.add_corridor();
    map.set_rect(Cell::Corridor(c), 4, 0, 1, 8);
    map
}

#[test]
fn discovery_yields_mutual_scored_connections() {
    // 8x8 grid, two 3x3 rooms at (0,0) and (5,5), margins (1,1), corridor
    // size (1,1): the carved gap column between the first room and the
    // corridor yields a mutual connection, scored above zero on both sides.
    let map = two_rooms_and_a_corridor();
    let mut merger = SectionMerger::new(map, (1, 1), (1, 1), 4);
    merger.discover_connections();

    let room_section = &merger.map.section_vec[0];
    let corridor_section = &merger.map.section_vec[2];
    assert!(!room_section.get_connections().is_empty());
    assert!(!corridor_section.get_connections().is_empty());

    // The room side points east at the corridor's section, the corridor
    // side west at the room's section, through the same gap cell, with the
    // same positive score.
    let east = room_section
        .get_connections()
        .iter()
        .find(|e| e.direction == Direction::E)
        .expect("room side records the gap");
    assert_eq!(east.id, 2);
    assert!(east.score > 0);
    assert!(east.score <= SCORE_MAX);
    let west = corridor_section
        .get_connections()
        .iter()
        .find(|e| e.x == east.x && e.y == east.y)
        .expect("corridor side records the same gap");
    assert_eq!(west.direction, Direction::W);
    assert_eq!(west.id, 0);
    assert_eq!(west.score, east.score);

    // The gap next to the room's vertical center scores a full 1000: the
    // room side is dead centered, the corridor side is always full.
    let centered = room_section
        .get_connections()
        .iter()
        .find(|e| e.x == 3 && e.y == 1)
        .expect("the centered gap is recorded");
    assert_eq!(centered.score, 1000);
    // One cell off center: 1 - (2/3) in thousandths, rounded up.
    let off = room_section
        .get_connections()
        .iter()
        .find(|e| e.x == 3 && e.y == 0)
        .expect("the off-center gap is recorded");
    assert_eq!(off.score, 334);
}

#[test]
fn propagation_opens_gaps_and_relabels() {
    let map = two_rooms_and_a_corridor();
    let mut merger = SectionMerger::new(map, (1, 1), (1, 1), 4);
    merger.discover_connections();
    merger.connect_sections();

    // The corridor's section was reached from the root room and relabeled;
    // the far room stays isolated under its own id.
    assert_eq!(merger.map.section_vec[0].get_id(), 0);
    assert_eq!(merger.map.section_vec[2].get_id(), 0);
    assert_eq!(merger.map.section_vec[1].get_id(), 1);

    // The best gap was opened as a walkable Connection cell.
    assert_eq!(merger.map.get(3, 1), Cell::Connection);
}

#[test]
fn propagation_is_idempotent_on_ids() {
    let map = two_rooms_and_a_corridor();
    let mut merger = SectionMerger::new(map, (1, 1), (1, 1), 4);
    merger.discover_connections();
    merger.connect_sections();
    let ids_after_first: Vec<usize> =
        merger.map.section_vec.iter().map(|s| s.get_id()).collect();

    // Re-running the propagation against the same discovered connections
    // yields the same id assignment and the same isolated set.
    merger.connect_sections();
    let ids_after_second: Vec<usize> =
        merger.map.section_vec.iter().map(|s| s.get_id()).collect();
    assert_eq!(ids_after_first, ids_after_second);
    assert_eq!(ids_after_second, vec![0, 1, 0]);
}

#[test]
fn propagation_is_idempotent_on_the_grid_too() {
    // Gaps are opened only for targets not yet carrying the root's id, so
    // a second pass changes no cell either.
    let map = two_rooms_and_a_corridor();
    let mut merger = SectionMerger::new(map, (1, 1), (1, 1), 4);
    merger.discover_connections();
    merger.connect_sections();
    let cells_after_first = merger.map.iter_enumerate();
    merger.connect_sections();
    assert_eq!(merger.map.iter_enumerate(), cells_after_first);
}

/// An 8x8 rock map with a corridor strand shaped like a branch: a root
/// cell, a two-cell dead-end stub east of it, and one cell south of it.
fn stub_map() -> CellMatrix {
    let mut map = CellMatrix::new(8, 8, Cell::Rock);
    let c = map.add_corridor();
    map.set(2, 2, Cell::Corridor(c));
    map.set(3, 2, Cell::Corridor(c));
    map.set(4, 2, Cell::Corridor(c));
    map.set(2, 3, Cell::Corridor(c));
    let n0 = CorridorNode::new(&mut map.corridor_tree, None, 2, 2);
    let n1 = CorridorNode::new(&mut map.corridor_tree, Some(n0), 3, 2);
    let _n2 = CorridorNode::new(&mut map.corridor_tree, Some(n1), 4, 2);
    let _n3 = CorridorNode::new(&mut map.corridor_tree, Some(n0), 2, 3);
    map.corridor_tree.roots.push(n0);
    map
}

#[test]
fn pruning_removes_shallow_dead_end_stub() {
    // A 2-cell dead-end stub, prune_length 4, no Connection cell nearby:
    // phase 3 removes it, cell by cell, and detaches it from its parent.
    let map = stub_map();
    let mut merger = SectionMerger::new(map, (1, 1), (1, 1), 4);
    merger.prune();
    assert_eq!(merger.map.get(4, 2), Cell::Removed);
    assert_eq!(merger.map.get(3, 2), Cell::Removed);
    // The stub's two nodes hang off nodes 0 and 1; both edges are gone.
    assert!(!merger.map.corridor_tree.nodes[0].children.contains(&1));
    assert!(merger.map.corridor_tree.nodes[1].children.is_empty());
}

#[test]
fn pruning_keeps_stub_next_to_a_connection() {
    // The same stub with a Connection cell at its tip is kept, whatever
    // its depth.
    let mut map = stub_map();
    map.set(5, 2, Cell::Connection);
    let mut merger = SectionMerger::new(map, (1, 1), (1, 1), 4);
    merger.prune();
    assert_eq!(merger.map.get(4, 2), Cell::Corridor(0));
    assert_eq!(merger.map.get(3, 2), Cell::Corridor(0));
    assert!(merger.map.corridor_tree.nodes[0].children.contains(&1));
    assert!(merger.map.corridor_tree.nodes[1].children.contains(&2));
}

#[test]
fn pruning_respects_the_threshold() {
    // With a prune threshold of 0 no depth is below it: nothing is pruned.
    let map = stub_map();
    let mut merger = SectionMerger::new(map, (1, 1), (1, 1), 0);
    merger.prune();
    assert_eq!(merger.map.get(4, 2), Cell::Corridor(0));
    assert!(merger.map.corridor_tree.nodes[0].children.contains(&1));
}

#[test]
fn merger_generate_runs_all_phases() {
    let map = two_rooms_and_a_corridor();
    let merger = SectionMerger::new(map, (1, 1), (1, 1), 4);
    let out = merger.generate();
    // Discovery and propagation merged the corridor into the root room's
    // section and opened the centered gap.
    assert_eq!(out.section_vec[2].get_id(), 0);
    assert_eq!(out.get(3, 1), Cell::Connection);
    // Rooms and dimensions survive untouched.
    assert_eq!(out.width, 8);
    assert_eq!(out.height, 8);
    assert_eq!(out.iter_rooms().len(), 2);
}

#[test]
fn generated_map_keeps_every_id_live() {
    let map = Generator::new().size(48, 32).iterations(40).seed(11).generate();
    assert_eq!(map.width, 48);
    assert_eq!(map.height, 32);
    let rooms = map.iter_rooms().len();
    let corridors = map.iter_corridors().len();
    let sections = map.section_vec.len();
    // One section per placed room, one more per carved strand.
    assert_eq!(sections, rooms + corridors);
    // The corners lie outside the inscribed ellipse and stay unbreakable;
    // its center was opened for digging.
    assert_eq!(map.get(0, 0), Cell::SolidRock);
    assert_ne!(map.get(24, 16), Cell::SolidRock);
    for (cell, _x, _y) in map.iter_enumerate() {
        match cell {
            Cell::Room(i) => {
                assert!(i < rooms);
                assert!(map.get_room(i).section_id < sections);
            }
            Cell::Corridor(i) => {
                assert!(i < corridors);
                assert!(map.get_corridor(i).section_id < sections);
            }
            _ => {}
        }
    }
    for s in map.section_vec.iter() {
        assert!(s.get_id() < sections);
    }
}

#[test]
fn generated_rooms_never_collide_with_margins() {
    let map = Generator::new()
        .size(64, 48)
        .margins(2, 2)
        .iterations(64)
        .seed(3)
        .generate();
    let rooms = map.iter_rooms();
    for i in 0..rooms.len() {
        for j in 0..rooms.len() {
            if i != j {
                assert!(!rooms[i].collides_with(&rooms[j], (2, 2)));
            }
        }
    }
}

#[test]
fn same_seed_reproduces_the_same_map() {
    let a = Generator::new().seed(42).generate();
    let b = Generator::new().seed(42).generate();
    assert_eq!(a.iter_enumerate(), b.iter_enumerate());
    assert_eq!(a.iter_rooms().len(), b.iter_rooms().len());
}

#[test]
fn circle_shape_generates() {
    let map = Generator::new()
        .size(40, 40)
        .shape(MapShape::Circle)
        .iterations(30)
        .seed(5)
        .generate();
    assert_eq!(map.width, 40);
    assert_eq!(map.height, 40);
}

#[test]
fn builder_defaults_match_the_documented_configuration() {
    let g = Generator::new();
    assert_eq!(g.options.width, 64);
    assert_eq!(g.options.height, 32);
    assert_eq!(g.options.room_min, (4, 4));
    assert_eq!(g.options.room_max, (8, 8));
    assert_eq!(g.options.iterations, 64);
    assert_eq!(g.options.corridor_width, 2);
    assert_eq!(g.options.corridor_height, 2);
    assert_eq!(g.options.corridor_errantness, 750);
    assert_eq!(g.options.margins, (1, 3));
    assert_eq!(g.options.prune_length, 4);
}

#[test]
fn score_pos_grades_each_side() {
    let map = two_rooms_and_a_corridor();
    let merger = SectionMerger::new(map, (1, 1), (1, 1), 4);
    // A corridor cell scores a full 1000.
    assert_eq!(merger.score_pos(4, 1, false), 1000);
    // Unowned ground scores zero.
    assert_eq!(merger.score_pos(3, 7, false), 0);
    // A room cell at the room's vertical center line scores fully...
    assert_eq!(merger.score_pos(2, 1, false), 1000);
    // ...and drops off toward the edge.
    assert_eq!(merger.score_pos(2, 0, false), 334);
}
