//! Unit tests for the grid, the corridor forest and the section records.

use daedalus::cell_matrix::Cell;
use daedalus::cell_matrix::CellMatrix;
use daedalus::corridor_tree::add_child;
use daedalus::corridor_tree::get_parent;
use daedalus::corridor_tree::remove_node;
use daedalus::corridor_tree::CorridorNode;
use daedalus::corridor_tree::CorridorTree;
use daedalus::direction::Direction;
use daedalus::room::Room;
use daedalus::room::Sectionable;
use daedalus::room_generator::is_within_circle_shape;
use daedalus::sections::Section;
use daedalus::sections::SCORE_MAX;

#[test]
fn rng_draws_stay_below_the_bound() {
    let mut rng = daedalus::rng::rng_from_seed(17);
    for _ in 0..50 {
        // A range of one admits only zero.
        assert_eq!(daedalus::rng::rng_below(&mut rng, 1), 0);
        assert!(daedalus::rng::rng_below(&mut rng, 6) < 6);
    }
    // The same seed reproduces the same draws.
    let mut a = daedalus::rng::rng_from_seed(99);
    let mut b = daedalus::rng::rng_from_seed(99);
    for _ in 0..20 {
        assert_eq!(
            daedalus::rng::rng_below(&mut a, 1000),
            daedalus::rng::rng_below(&mut b, 1000)
        );
    }
}

#[test]
fn cell_predicates() {
    assert!(Cell::Room(3).is_room());
    assert!(!Cell::Rock.is_room());
    assert!(Cell::Corridor(0).is_corridor());
    assert!(!Cell::Connection.is_corridor());
    assert!(Cell::Rock.is_rock());
    assert!(!Cell::SolidRock.is_rock());
    assert!(Cell::Room(1).is_walkable());
    assert!(Cell::Corridor(2).is_walkable());
    assert!(Cell::Connection.is_walkable());
    assert!(!Cell::Wall.is_walkable());
    assert!(!Cell::Removed.is_walkable());
    assert!(!Cell::Perimeter(1).is_walkable());
}

#[test]
fn get_returns_sentinel_outside_for_any_integers() {
    let map = CellMatrix::new(4, 3, Cell::Rock);
    // In range: the fill.
    assert_eq!(map.get(0, 0), Cell::Rock);
    assert_eq!(map.get(3, 2), Cell::Rock);
    // Out of range in every direction, including far negatives: the
    // sentinel, never a failure.
    assert_eq!(map.get(-1, 0), Cell::SolidRock);
    assert_eq!(map.get(0, -1), Cell::SolidRock);
    assert_eq!(map.get(4, 0), Cell::SolidRock);
    assert_eq!(map.get(0, 3), Cell::SolidRock);
    assert_eq!(map.get(-1000000, -1000000), Cell::SolidRock);
    assert_eq!(map.get(1000000, 1000000), Cell::SolidRock);
    assert_eq!(map.get(i32::MIN, i32::MAX), Cell::SolidRock);
}

#[test]
fn set_and_get_roundtrip() {
    let mut map = CellMatrix::new(5, 5, Cell::SolidRock);
    map.set(2, 3, Cell::Room(0));
    assert_eq!(map.get(2, 3), Cell::Room(0));
    assert_eq!(map.get(3, 2), Cell::SolidRock);
}

#[test]
fn set_rect_fills_exactly_the_rectangle() {
    let mut map = CellMatrix::new(6, 6, Cell::Rock);
    map.set_rect(Cell::Wall, 1, 2, 3, 2);
    for y in 0..6 {
        for x in 0..6 {
            let expected = if (1..4).contains(&x) && (2..4).contains(&y) {
                Cell::Wall
            } else {
                Cell::Rock
            };
            assert_eq!(map.get(x, y), expected);
        }
    }
}

#[test]
fn get_rect_clips_with_sentinel() {
    let mut map = CellMatrix::new(4, 4, Cell::Rock);
    map.set(0, 0, Cell::Wall);
    let rect = map.get_rect(-1, -1, 3, 3);
    assert_eq!(rect.width, 3);
    assert_eq!(rect.height, 3);
    assert_eq!(rect.get(0, 0), Cell::SolidRock);
    assert_eq!(rect.get(1, 1), Cell::Wall);
    assert_eq!(rect.get(2, 2), Cell::Rock);
}

#[test]
fn iter_enumerate_row_major() {
    let mut map = CellMatrix::new(3, 2, Cell::Rock);
    map.set(2, 1, Cell::Wall);
    let cells = map.iter_enumerate();
    assert_eq!(cells.len(), 6);
    assert_eq!(cells[0], (Cell::Rock, 0, 0));
    assert_eq!(cells[1], (Cell::Rock, 1, 0));
    assert_eq!(cells[3], (Cell::Rock, 0, 1));
    assert_eq!(cells[5], (Cell::Wall, 2, 1));
}

#[test]
fn rect_is_short_circuits_on_match() {
    let mut map = CellMatrix::new(4, 4, Cell::Rock);
    map.set(2, 2, Cell::Connection);
    let hit = map.rect_is(0, 0, 4, 4, |c: Cell| c.is_walkable());
    assert_eq!(hit, Some(Cell::Connection));
    let miss = map.rect_is(0, 0, 2, 2, |c: Cell| c.is_walkable());
    assert_eq!(miss, None);
}

#[test]
fn check_cells_probes_in_order() {
    let mut map = CellMatrix::new(4, 4, Cell::Rock);
    map.set(1, 1, Cell::Connection);
    let probe = |c: Cell| match c {
        Cell::Connection => Some(true),
        _ => None,
    };
    let found = map.check_cells(vec![(0, 0), (1, 1)], probe);
    assert_eq!(found, Some(true));
    let missed = map.check_cells(vec![(0, 0), (2, 2), (-1, -1)], probe);
    assert_eq!(missed, None);
}

#[test]
fn rect_border_is_scans_only_the_perimeter() {
    let mut map = CellMatrix::new(6, 6, Cell::Rock);
    // A Connection strictly inside the scanned border is not seen.
    map.set(2, 2, Cell::Connection);
    let probe = |c: Cell| match c {
        Cell::Connection => Some(()),
        _ => None,
    };
    assert_eq!(map.rect_border_is(1, 1, 3, 3, probe), None);
    // One just past the rectangle's right edge is outside its perimeter.
    map.set(4, 2, Cell::Connection);
    assert_eq!(map.rect_border_is(1, 1, 3, 3, probe), None);
    // One on the rectangle's own rightmost column is seen...
    map.set(3, 2, Cell::Connection);
    assert_eq!(map.rect_border_is(1, 1, 3, 3, probe), Some(()));
    map.set(3, 2, Cell::Rock);
    // ...as is one on its leftmost column.
    map.set(1, 2, Cell::Connection);
    assert_eq!(map.rect_border_is(1, 1, 3, 3, probe), Some(()));
}

#[test]
fn rooms_and_corridors_are_indexed() {
    let mut map = CellMatrix::new(8, 8, Cell::Rock);
    let s = map.new_section();
    assert_eq!(s, 0);
    let idx = map.push_room(Room { x: 1, y: 1, width: 2, height: 2, section_id: s });
    assert_eq!(idx, 0);
    assert_eq!(map.get_room(0).section_id, 0);
    let c = map.add_corridor();
    assert_eq!(c, 0);
    assert_eq!(map.get_corridor(0).section_id, 1);
    assert_eq!(map.section_vec.len(), 2);
    assert_eq!(map.iter_rooms().len(), 1);
    assert_eq!(map.iter_corridors().len(), 1);
}

#[test]
fn sectionable_relabels() {
    let mut room = Room { x: 0, y: 0, width: 1, height: 1, section_id: 4 };
    assert_eq!(room.get_section(), 4);
    room.set_section(9);
    assert_eq!(room.get_section(), 9);
}

#[test]
fn collides_with_margin_expansion() {
    let a = Room { x: 0, y: 0, width: 3, height: 3, section_id: 0 };
    let b = Room { x: 3, y: 0, width: 3, height: 3, section_id: 1 };
    // Directly adjacent rooms: a margin of 1 makes them overlap.
    assert!(a.collides_with(&b, (1, 1)));
    assert!(b.collides_with(&a, (1, 1)));
    let c = Room { x: 4, y: 0, width: 3, height: 3, section_id: 2 };
    // One cell of rock between them: a margin of 1 no longer reaches.
    assert!(!a.collides_with(&c, (1, 1)));
    assert!(!c.collides_with(&a, (1, 1)));
    // A larger margin does.
    assert!(a.collides_with(&c, (2, 1)));
}

#[test]
fn turn_clockwise_cycles() {
    assert_eq!(Direction::N.turn_clockwise(), Direction::E);
    assert_eq!(Direction::E.turn_clockwise(), Direction::S);
    assert_eq!(Direction::S.turn_clockwise(), Direction::W);
    assert_eq!(Direction::W.turn_clockwise(), Direction::N);
}

#[test]
fn circle_shape_membership() {
    // A small room at the center of a radius-8 circle fits.
    let center = Room { x: 7, y: 7, width: 2, height: 2, section_id: 0 };
    assert!(is_within_circle_shape(&center, 8));
    // A room poking far past the circle does not.
    let corner = Room { x: 0, y: 0, width: 2, height: 2, section_id: 0 };
    assert!(!is_within_circle_shape(&corner, 8));
}

#[test]
fn corridor_tree_wires_parents_and_children() {
    let mut tree = CorridorTree::new();
    let root = CorridorNode::new(&mut tree, None, 1, 1);
    let child = CorridorNode::new(&mut tree, Some(root), 2, 1);
    let grandchild = CorridorNode::new(&mut tree, Some(child), 3, 1);
    assert_eq!(get_parent(&tree, root), None);
    assert_eq!(get_parent(&tree, child), Some(root));
    assert_eq!(get_parent(&tree, grandchild), Some(child));
    assert_eq!(tree.nodes[root].children, vec![child]);
    assert_eq!(tree.nodes[child].children, vec![grandchild]);
}

#[test]
fn remove_node_unlinks_only_the_parent_edge() {
    let mut tree = CorridorTree::new();
    let root = CorridorNode::new(&mut tree, None, 1, 1);
    let a = CorridorNode::new(&mut tree, Some(root), 2, 1);
    let b = CorridorNode::new(&mut tree, Some(root), 1, 2);
    remove_node(&mut tree, a);
    assert_eq!(tree.nodes[root].children, vec![b]);
    // The removed node's own fields are untouched.
    assert_eq!(tree.nodes[a].parent, Some(root));
    assert_eq!(tree.nodes[a].x, 2);
    // Removing a root is a no-op.
    remove_node(&mut tree, root);
    assert_eq!(tree.nodes[root].children, vec![b]);
}

#[test]
fn add_child_appends() {
    let mut tree = CorridorTree::new();
    let root = CorridorNode::new(&mut tree, None, 0, 0);
    let lone = CorridorNode::new(&mut tree, None, 5, 5);
    add_child(&mut tree, root, lone);
    assert_eq!(tree.nodes[root].children, vec![lone]);
    assert_eq!(tree.nodes[lone].parent, Some(root));
}

#[test]
fn section_records_connections_in_order() {
    let mut s = Section::new(3);
    assert_eq!(s.get_id(), 3);
    s.add_connection(1, 2, 7, 500, Direction::E);
    s.add_connection(1, 2, 7, 500, Direction::E);
    // No dedup at this layer.
    assert_eq!(s.get_connections().len(), 2);
    s.set_id(0);
    assert_eq!(s.get_id(), 0);
    assert_eq!(s.get_connections().len(), 2);
}

#[test]
fn sections_compare_by_id_only() {
    let mut a = Section::new(1);
    let b = Section::new(1);
    a.add_connection(0, 0, 2, 10, Direction::N);
    assert!(a == b);
    let c = Section::new(2);
    assert!(a != c);
}

#[test]
fn best_connections_sorts_and_dedups_per_target_and_direction() {
    let mut map = CellMatrix::new(4, 4, Cell::Rock);
    let s0 = map.new_section();
    let s1 = map.new_section();
    let s2 = map.new_section();
    assert_eq!((s0, s1, s2), (0, 1, 2));
    let mut sec = Section::new(0);
    sec.add_connection(0, 0, 1, 200, Direction::E);
    sec.add_connection(0, 1, 1, 900, Direction::E);
    sec.add_connection(0, 2, 1, 400, Direction::N);
    sec.add_connection(0, 3, 2, 700, Direction::E);
    let best = map.get_best_connections(&sec);
    // One entry per (target id, direction), highest score first.
    assert_eq!(best.len(), 3);
    assert_eq!(best[0].score, 900);
    assert_eq!(best[0].id, 1);
    assert_eq!(best[0].direction, Direction::E);
    assert_eq!(best[1].score, 700);
    assert_eq!(best[1].id, 2);
    assert_eq!(best[2].score, 400);
    assert_eq!(best[2].direction, Direction::N);
    assert!(best[0].score <= SCORE_MAX);
}
