use vstd::prelude::*;

verus! {

/// The kind of pile a card lies on.
#[derive(Clone, Copy, Debug, PartialEq, Eq, Hash, Structural)]
pub enum PlayArea {
    DrawPile,
    WastePile,
    Tableau,
    Foundation,
}

} // verus!
