use vstd::prelude::*;

verus! {

/// A position inside an octree, as three unsigned axis values.
///
/// While a tree is descended the position is rewritten in place into the
/// frame of the child that is entered.
#[derive(Debug)]
pub struct NodeLoc {
    location: [u16; 3],
}

impl View for NodeLoc {
    type V = (int, int, int);

    closed spec fn view(&self) -> (int, int, int) {
        (self.location@[0] as int, self.location@[1] as int, self.location@[2] as int)
    }
}

impl NodeLoc {
    /// Builds a position from its `(x, y, z)` axis values.
    pub fn new(coords: (u16, u16, u16)) -> (r: NodeLoc)
        ensures
            r@ == (coords.0 as int, coords.1 as int, coords.2 as int),
    {
        NodeLoc { location: [coords.0, coords.1, coords.2] }
    }

    pub fn x(&self) -> (r: u16)
        ensures
            r == self@.0,
    {
        self.location[0]
    }

    pub fn y(&self) -> (r: u16)
        ensures
            r == self@.1,
    {
        self.location[1]
    }

    pub fn z(&self) -> (r: u16)
        ensures
            r == self@.2,
    {
        self.location[2]
    }

    /// Moves the position `delta` towards the origin on the x axis.
    pub fn sub_x(&mut self, delta: u16)
        requires
            delta <= old(self)@.0,
        ensures
            final(self)@ == (old(self)@.0 - delta, old(self)@.1, old(self)@.2),
    {
        let v = self.location[0];
        self.location[0] = v - delta;
    }

    /// Moves the position `delta` towards the origin on the y axis.
    pub fn sub_y(&mut self, delta: u16)
        requires
            delta <= old(self)@.1,
        ensures
            final(self)@ == (old(self)@.0, old(self)@.1 - delta, old(self)@.2),
    {
        let v = self.location[1];
        self.location[1] = v - delta;
    }

    /// Moves the position `delta` towards the origin on the z axis.
    pub fn sub_z(&mut self, delta: u16)
        requires
            delta <= old(self)@.2,
        ensures
            final(self)@ == (old(self)@.0, old(self)@.1, old(self)@.2 - delta),
    {
        let v = self.location[2];
        self.location[2] = v - delta;
    }
}

} // verus!
