//! The word a slot holds once it lies past the boundary.
use vstd::prelude::*;

verus! {

/// A slot's cell word: `0` when the cell is empty, `i + 1` when it forwards
/// keys to slot `i`. The bias keeps an all-zero cell empty.
#[derive(Clone, Copy)]
pub struct Item {
    word: usize,
}

impl View for Item {
    type V = usize;

    closed spec fn view(&self) -> usize {
        self.word
    }
}

impl Item {
    /// An empty cell.
    pub fn nothing() -> (r: Item)
        ensures
            r@ == 0,
    {
        Item { word: 0 }
    }

    /// The slot this cell forwards to.
    pub fn get_indirection(&self) -> (r: usize)
        requires
            self@ != 0,
        ensures
            r == self@ - 1,
    {
        self.word - 1
    }

    /// Whether the cell is empty.
    pub fn is_nothing(&self) -> (r: bool)
        ensures
            r == (self@ == 0),
    {
        self.word == 0
    }

    /// Makes the cell forward to slot `index`.
    pub fn set_indirection(&mut self, index: usize)
        requires
            index < usize::MAX,
        ensures
            final(self)@ == index + 1,
    {
        self.word = index + 1;
    }

    /// Makes the cell empty.
    pub fn set_nothing(&mut self)
        ensures
            final(self)@ == 0,
    {
        self.word = 0;
    }
}

} // verus!
