use vstd::prelude::*;

pub mod card;
pub mod deal;
pub mod dealer;
pub mod dropzone;
pub mod laws;
pub mod location;
pub mod movedata;
pub mod pcard;
pub mod play_area;
pub mod settings;
pub mod suit;

verus! {

} // verus!
