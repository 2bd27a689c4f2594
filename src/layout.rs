use vstd::prelude::*;

verus! {

/// A grid of subplots, `height` rows by `width` columns.
pub struct Layout {
    pub height: usize,
    pub width: usize,
}

impl Layout {
    pub fn new(width: usize, height: usize) -> (r: Self)
        ensures
            r.width == width,
            r.height == height,
    {
        Layout { height, width }
    }

    /// The layout as (rows, columns).
    pub fn get_plotter_layout(&self) -> (r: (usize, usize))
        ensures
            r == (self.height, self.width),
    {
        (self.height, self.width)
    }

    /// The number of subplots.
    pub fn get_nb_of_subplots(&self) -> (r: usize)
        requires
            self.height * self.width <= usize::MAX,
        ensures
            r == self.height * self.width,
    {
        self.height * self.width
    }
}

} // verus!
