//! Rooms and corridor strands, each belonging to one section.

use vstd::prelude::*;

verus! {

/// A placed rectangular room. Geometry is fixed at placement; only the
/// section id changes, when the merge phase relabels sections.
#[derive(Clone, Copy, Debug)]
pub struct Room {
    pub x: u16,
    pub y: u16,
    pub width: u16,
    pub height: u16,
    pub section_id: usize,
}

/// Whether the rectangle of `a`, expanded by the margins on all four sides,
/// overlaps the rectangle of `b`. Symmetric in `a` and `b`.
pub open spec fn rooms_collide(a: Room, b: Room, mh: int, mv: int) -> bool {
    &&& a.x - mh < b.x + b.width
    &&& b.x < a.x + a.width + mh
    &&& a.y - mv < b.y + b.height
    &&& b.y < a.y + a.height + mv
}

/// Expanding either room by the margins names the same overlap relation.
pub proof fn lemma_collide_symmetric(a: Room, b: Room, mh: int, mv: int)
    ensures
        rooms_collide(a, b, mh, mv) == rooms_collide(b, a, mh, mv),
{
}

impl Room {
    /// True when this room's margin-expanded rectangle overlaps `room`.
    pub fn collides_with(&self, room: &Room, margins: (u8, u8)) -> (r: bool)
        ensures
            r == rooms_collide(*self, *room, margins.0 as int, margins.1 as int),
    {
        (self.x as i32 - margins.0 as i32) < (room.x as i32 + room.width as i32)
            && (room.x as i32) < (self.x as i32 + self.width as i32 + margins.0 as i32)
            && (self.y as i32 - margins.1 as i32) < (room.y as i32 + room.height as i32)
            && (room.y as i32) < (self.y as i32 + self.height as i32 + margins.1 as i32)
    }
}

/// A corridor strand; its geometry lives in the grid cells tagged with the
/// strand's index.
#[derive(Clone, Copy, Debug)]
pub struct Corridor {
    pub section_id: usize,
}

/// Anything that belongs to a section and can be relabeled.
pub trait Sectionable {
    /// The section this value belongs to.
    spec fn spec_section(&self) -> usize;

    /// The current section id.
    fn get_section(&self) -> (r: usize)
        ensures
            r == self.spec_section(),
    ;

    /// Relabel to `section`.
    fn set_section(&mut self, section: usize)
        ensures
            final(self).spec_section() == section,
    ;
}

impl Sectionable for Room {
    open spec fn spec_section(&self) -> usize {
        self.section_id
    }

    fn get_section(&self) -> usize {
        self.section_id
    }

    fn set_section(&mut self, section: usize) {
        self.section_id = section;
    }
}

impl Sectionable for Corridor {
    open spec fn spec_section(&self) -> usize {
        self.section_id
    }

    fn get_section(&self) -> usize {
        self.section_id
    }

    fn set_section(&mut self, section: usize) {
        self.section_id = section;
    }
}

} // verus!
