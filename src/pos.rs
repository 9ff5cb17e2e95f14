use vstd::prelude::*;

verus! {

/// Which child link of a node a position refers to.
#[derive(Debug, Clone, Copy, PartialEq, Eq, Structural)]
pub enum Pos {
    Left,
    Right,
}

impl Pos {
    /// The other side.
    pub fn flip(self) -> (r: Pos)
        ensures
            r != self,
    {
        match self {
            Pos::Left => Pos::Right,
            Pos::Right => Pos::Left,
        }
    }
}

impl Default for Pos {
    fn default() -> (r: Pos)
        ensures
            r == Pos::Left,
    {
        Pos::Left
    }
}

} // verus!
