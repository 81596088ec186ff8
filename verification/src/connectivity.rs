//! Which neighbours of a pixel count as adjacent when a region grows.

use vstd::prelude::*;

verus! {

/// The neighbourhood used by a flood fill.
#[derive(Clone, Copy, Debug, PartialEq, Eq, Structural)]
pub enum Connectivity {
    /// The four orthogonal neighbours.
    FOUR,
    /// The four orthogonal and the four diagonal neighbours.
    EIGHT,
}

impl Default for Connectivity {
    fn default() -> (c: Connectivity)
        ensures
            c == Connectivity::EIGHT,
    {
        Connectivity::EIGHT
    }
}

impl Connectivity {
    /// The name shown for this choice.
    pub open spec fn spec_name(self) -> Seq<char> {
        match self {
            Connectivity::FOUR => "4-х связная"@,
            Connectivity::EIGHT => "8-ми связная"@,
        }
    }

    /// The name shown for this choice.
    pub fn get_name(&self) -> (name: String)
        ensures
            name@ == self.spec_name(),
    {
        match self {
            Connectivity::FOUR => "4-х связная".to_owned(),
            Connectivity::EIGHT => "8-ми связная".to_owned(),
        }
    }

    /// Whether the pixels `a` and `b` are neighbours.
    pub open spec fn adjacent(self, a: (int, int), b: (int, int)) -> bool {
        let dx = if a.0 >= b.0 { a.0 - b.0 } else { b.0 - a.0 };
        let dy = if a.1 >= b.1 { a.1 - b.1 } else { b.1 - a.1 };
        match self {
            Connectivity::FOUR => dx + dy == 1,
            Connectivity::EIGHT => dx <= 1 && dy <= 1 && dx + dy >= 1,
        }
    }
}

} // verus!
