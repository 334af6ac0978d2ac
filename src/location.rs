use vstd::prelude::*;

use crate::play_area::PlayArea;

verus! {

/// Where a card lies on the table.
#[derive(Clone, Copy, Debug, PartialEq, Eq, Structural)]
pub struct Location {
    /// Kind of pile.
    pub area: PlayArea,
    /// Which pile of that kind: 0 for the draw and waste piles, the
    /// column for the tableau, 0 to 3 for the foundations.
    pub area_index: usize,
    /// Depth within the pile, 0 at the bottom.
    pub sort_index: usize,
    /// Whether the card shows its face.
    pub faceup: bool,
}

impl Location {
    /// Identity of the pile a location belongs to.
    pub open spec fn stack(self) -> (PlayArea, usize) {
        (self.area, self.area_index)
    }

    pub fn copy_from(&mut self, other: &Location)
        ensures
            *final(self) == *other,
    {
        self.area = other.area;
        self.area_index = other.area_index;
        self.sort_index = other.sort_index;
        self.faceup = other.faceup;
    }

    pub fn stack_id(&self) -> (r: (PlayArea, usize))
        ensures
            r == self.stack(),
    {
        (self.area, self.area_index)
    }
}

} // verus!
