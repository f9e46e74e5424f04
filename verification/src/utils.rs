//! Small shared items: grid coordinates, the neighbour enumeration and room ids.

use vstd::prelude::*;

pub mod grid;
pub mod neighbors;

verus! {

/// A grid coordinate: `x` is the row, `y` the column.
#[derive(Debug, Clone, Copy, PartialEq, Eq, Structural)]
pub struct Point {
    pub x: usize,
    pub y: usize,
}

/// The id given to a newly created room.
pub open spec fn room_id_text() -> Seq<char> {
    "66666"@
}

/// Returns the id for a new room. Every room currently gets the same id.
pub fn generate_room_id() -> (id: String)
    ensures
        id@ == room_id_text(),
{
    "66666".to_string()
}

} // verus!
