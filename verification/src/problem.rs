use vstd::prelude::*;
use crate::text::{numbers_of, parse_list};

verus! {

/// The least length of an across or down word.
pub const MINIMUM_WORD_LENGTH: usize = 3;

/// The letter `x`, which stands between the width and the height.
pub const BY: u8 = 120;

/// The comma, which stands between the clue numbers of a list.
pub const COMMA: u8 = 44;

/// A grid size and the clue numbers that its across and down words must get.
pub struct Problem {
    pub name: String,
    /// Width and height.
    pub size: (usize, usize),
    pub accross: Vec<usize>,
    pub down: Vec<usize>,
}

/// Every clue number of the list is positive.
pub open spec fn all_positive(list: Seq<usize>) -> bool {
    forall|i: int| 0 <= i < list.len() ==> (#[trigger] list[i]) >= 1
}

/// The greatest number of a list, 0 for the empty list.
pub open spec fn greatest(list: Seq<usize>) -> usize
    decreases list.len(),
{
    if list.len() == 0 {
        0
    } else {
        let rest = greatest(list.drop_last());
        if list.last() > rest {
            list.last()
        } else {
            rest
        }
    }
}

/// What makes a size and two clue lists a usable problem: the grid has a
/// cell, every position that a scan reaches fits a signed machine word, the
/// clue numbers are positive and there is at least one.
pub open spec fn valid(size: (usize, usize), accross: Seq<usize>, down: Seq<usize>) -> bool {
    &&& size.0 >= 1
    &&& size.1 >= 1
    &&& size.0 * size.1 + MINIMUM_WORD_LENGTH <= isize::MAX
    &&& all_positive(accross)
    &&& all_positive(down)
    &&& accross.len() + down.len() >= 1
}

/// The width and the height that a list of sides gives: its first two
/// numbers.
pub open spec fn size_of(sides: Seq<usize>) -> (usize, usize) {
    (sides[0], sides[1])
}

/// The three texts describe a usable problem: the size text lists two
/// numbers or more with `x` between them, the clue texts list numbers with
/// `,` between them, and the width, the height and the clues are usable.
pub open spec fn loadable(size: Seq<u8>, accross: Seq<u8>, down: Seq<u8>) -> bool {
    &&& numbers_of(size, BY) matches Some(sides)
    &&& sides.len() >= 2
    &&& numbers_of(accross, COMMA) matches Some(a)
    &&& numbers_of(down, COMMA) matches Some(d)
    &&& valid(size_of(sides), a, d)
}

/// Whether every clue number of the list is positive.
fn positive(list: &Vec<usize>) -> (ok: bool)
    ensures
        ok == all_positive(list@),
{
    let mut i: usize = 0;
    while i < list.len()
        invariant
            i <= list.len(),
            forall|j: int| 0 <= j < i ==> (#[trigger] list@[j]) >= 1,
        decreases list.len() - i,
    {
        if list[i] == 0 {
            return false;
        }
        i += 1;
    }
    true
}

impl Problem {
    pub open spec fn width(&self) -> int {
        self.size.0 as int
    }

    pub open spec fn height(&self) -> int {
        self.size.1 as int
    }

    /// The number of cells of the grid.
    pub open spec fn cells(&self) -> int {
        self.size.0 * self.size.1
    }

    /// The greatest clue number of both lists.
    pub open spec fn greatest_clue(&self) -> usize {
        if greatest(self.accross@) > greatest(self.down@) {
            greatest(self.accross@)
        } else {
            greatest(self.down@)
        }
    }

    /// The grid has a cell, every position that a scan reaches fits a signed
    /// machine word, the clue numbers are positive and there is at least one.
    pub open spec fn wf(&self) -> bool {
        valid(self.size, self.accross@, self.down@)
    }

    /// Reads a problem from the three texts of its description: the size as
    /// `WxH`, and each clue list as numbers with a comma between each two.
    /// There is none if a text is not of that form, or if what they say is
    /// not usable: see [`valid`].
    pub fn load(name: String, size: &[u8], accross: &[u8], down: &[u8]) -> (r: Option<Problem>)
        ensures
            r is Some <==> loadable(size@, accross@, down@),
            r matches Some(p) ==> {
                &&& p.name == name
                &&& p.size == size_of(numbers_of(size@, BY)->0)
                &&& p.accross@ == numbers_of(accross@, COMMA)->0
                &&& p.down@ == numbers_of(down@, COMMA)->0
            },
    {
        let sides = match parse_list(size, BY) {
            Some(sides) => sides,
            None => {
                return None;
            },
        };
        if sides.len() < 2 {
            return None;
        }
        let accross = match parse_list(accross, COMMA) {
            Some(list) => list,
            None => {
                return None;
            },
        };
        let down = match parse_list(down, COMMA) {
            Some(list) => list,
            None => {
                return None;
            },
        };
        Problem::new(name, (sides[0], sides[1]), accross, down)
    }

    /// Makes a problem of a name, a size and the two clue lists, if they
    /// are usable: see [`valid`].
    pub fn new(name: String, size: (usize, usize), accross: Vec<usize>, down: Vec<usize>) -> (r:
        Option<Problem>)
        ensures
            r is Some <==> valid(size, accross@, down@),
            r matches Some(p) ==> p.name == name && p.size == size && p.accross == accross
                && p.down == down,
    {
        let fits = match size.0.checked_mul(size.1) {
            Some(count) => count <= isize::MAX as usize - MINIMUM_WORD_LENGTH,
            None => false,
        };
        if size.0 >= 1 && size.1 >= 1 && fits && (accross.len() >= 1 || down.len() >= 1) && positive(
            &accross,
        ) && positive(&down) {
            Some(Problem { name: name, size: size, accross: accross, down: down })
        } else {
            None
        }
    }

    /// Both sides of the grid are bounded by the number of cells.
    pub proof fn lemma_sides(&self)
        requires
            self.wf(),
        ensures
            self.width() <= self.cells(),
            self.height() <= self.cells(),
            self.cells() >= 1,
    {
        let w = self.width();
        let h = self.height();
        assert(w <= w * h && h <= w * h && w * h >= 1) by (nonlinear_arith)
            requires
                w >= 1,
                h >= 1,
        ;
    }

    /// Whether a position lies inside the grid.
    pub fn in_bounds(&self, position: (isize, isize)) -> (inside: bool)
        requires
            self.wf(),
        ensures
            inside == crate::grid::in_grid(self, position.0 as int, position.1 as int),
    {
        proof {
            self.lemma_sides();
        }
        position.0 >= 0 && position.1 >= 0 && position.0 < self.size.0 as isize && position.1
            < self.size.1 as isize
    }

    /// The number of cells of the grid.
    pub fn field_count(&self) -> (count: usize)
        requires
            self.wf(),
        ensures
            count == self.cells(),
    {
        self.size.0 * self.size.1
    }
}

} // verus!
