use vstd::prelude::*;
use crate::field::{Counts, Field, RuleViolation};
use crate::grid::{is_black, is_white, run};
use crate::problem::{Problem, MINIMUM_WORD_LENGTH};

verus! {

/// The next unused clue of `list`, counted from its front, is `number`.
pub open spec fn next_is(list: Seq<usize>, used: usize, number: usize) -> bool {
    used < list.len() && list[used as int] == number
}

/// The next unused clue of `list`, counted from its end, is `number`.
pub open spec fn last_is(list: Seq<usize>, used: usize, number: usize) -> bool {
    used < list.len() && list[list.len() - 1 - used] == number
}

/// The column of the cell committed last.
pub open spec fn column(p: &Problem, fields: Seq<Field>) -> int {
    (fields.len() - 1) % p.width()
}

/// The row of the cell committed last.
pub open spec fn row(p: &Problem, fields: Seq<Field>) -> int {
    (fields.len() - 1) / p.width()
}

/// The last cell of `fields` begins an across word.
pub open spec fn starts_accross(p: &Problem, fields: Seq<Field>) -> bool {
    fields.last() == Field::White && is_black(p, fields, column(p, fields) - 1, row(p, fields))
}

/// The last cell of `fields` begins a down word.
pub open spec fn starts_down(p: &Problem, fields: Seq<Field>) -> bool {
    fields.last() == Field::White && is_black(p, fields, column(p, fields), row(p, fields) - 1)
}

/// The rules on the cell committed last, the last of `fields`, as the
/// forward scan sees it.  A white cell that begins a word must carry the
/// next clue number of that direction and leave room for a word; a black
/// cell must not end a word that is too short.
pub open spec fn forward_rules(p: &Problem, fields: Seq<Field>, c: Counts) -> Result<
    Counts,
    RuleViolation,
> {
    let x = column(p, fields);
    let y = row(p, fields);
    let a = starts_accross(p, fields);
    let d = starts_down(p, fields);
    let least = MINIMUM_WORD_LENGTH as nat;
    let left = run(p, fields, x - 1, y, -1, 0, least, false);
    let up = run(p, fields, x, y - 1, 0, -1, least, false);
    if fields.last() == Field::White {
        if a && !next_is(p.accross@, c.accross_used, c.number) {
            Err(RuleViolation::NumberWrongAccross)
        } else if a && p.width() - x < least {
            Err(RuleViolation::TooLittleSpaceAccross)
        } else if d && !next_is(p.down@, c.down_used, c.number) {
            Err(RuleViolation::NumberWrongDown)
        } else if d && run(p, fields, x, y, 0, 1, least, true) < least {
            Err(RuleViolation::TooLittleSpaceDown)
        } else {
            Ok(
                Counts {
                    number: if a || d {
                        (c.number + 1) as usize
                    } else {
                        c.number
                    },
                    accross_used: if a {
                        (c.accross_used + 1) as usize
                    } else {
                        c.accross_used
                    },
                    down_used: if d {
                        (c.down_used + 1) as usize
                    } else {
                        c.down_used
                    },
                    ..c
                },
            )
        }
    } else if 0 < left < least {
        Err(RuleViolation::WordTooShortAccross)
    } else if 0 < up < least {
        Err(RuleViolation::WordTooShortDown)
    } else {
        Ok(c)
    }
}

/// The rules on the cell above the one committed last, as the scan of the
/// turned grid sees it: that cell's neighbours in the turned grid's reading
/// direction are the cell below it and the cell to its right.
pub open spec fn reverse_rules(p: &Problem, fields: Seq<Field>, c: Counts) -> Result<
    Counts,
    RuleViolation,
> {
    let x = column(p, fields);
    let y = row(p, fields);
    let d = is_black(p, fields, x, y);
    let a = is_black(p, fields, x + 1, y - 1);
    if !is_white(p, fields, x, y - 1) {
        Ok(c)
    } else if d && !last_is(p.down@, c.reverse_down_used, c.reverse_number) {
        Err(RuleViolation::NumberWrongDownReverse)
    } else if a && !last_is(p.accross@, c.reverse_accross_used, c.reverse_number) {
        Err(RuleViolation::NumberWrongAccrossReverse)
    } else {
        Ok(
            Counts {
                reverse_number: if a || d {
                    (c.reverse_number - 1) as usize
                } else {
                    c.reverse_number
                },
                reverse_accross_used: if a {
                    (c.reverse_accross_used + 1) as usize
                } else {
                    c.reverse_accross_used
                },
                reverse_down_used: if d {
                    (c.reverse_down_used + 1) as usize
                } else {
                    c.reverse_down_used
                },
                ..c
            },
        )
    }
}

/// Once the grid is full, every clue of both lists must have been used.
pub open spec fn completion_rules(p: &Problem, fields: Seq<Field>, c: Counts) -> Result<
    Counts,
    RuleViolation,
> {
    if fields.len() != p.cells() {
        Ok(c)
    } else if c.accross_used != p.accross@.len() {
        Err(RuleViolation::LeftOverAccross)
    } else if c.down_used != p.down@.len() {
        Err(RuleViolation::LeftOverDown)
    } else {
        Ok(c)
    }
}

/// The verdict on the cell committed last, the last of `fields`, where
/// `prev` are the tallies before it: the tallies after it, or the first rule
/// that it breaks.
pub open spec fn step(p: &Problem, fields: Seq<Field>, prev: Counts) -> Result<
    Counts,
    RuleViolation,
> {
    match forward_rules(p, fields, prev) {
        Err(e) => Err(e),
        Ok(c) => match reverse_rules(p, fields, c) {
            Err(e) => Err(e),
            Ok(c) => completion_rules(p, fields, c),
        },
    }
}

/// The tallies before any cell is committed.
pub open spec fn initial_counts(p: &Problem) -> Counts {
    Counts {
        number: 1,
        accross_used: 0,
        down_used: 0,
        reverse_number: p.greatest_clue(),
        reverse_accross_used: 0,
        reverse_down_used: 0,
    }
}

/// The tallies `counts[i + 1]` are those that the rules give for cell `i`
/// after `counts[i]`.
pub open spec fn follows(p: &Problem, fields: Seq<Field>, counts: Seq<Counts>, i: int) -> bool {
    step(p, fields.take(i + 1), counts[i]) == Ok::<Counts, RuleViolation>(counts[i + 1])
}

/// No more clue numbers have been given out than cells were committed.
pub open spec fn bounded(counts: Seq<Counts>, i: int) -> bool {
    counts[i].number <= i + 1
}

/// A history of commits: one tally more than cells, the first tally the
/// initial one, and each later one following from the one before it by the
/// rules.
pub open spec fn history(p: &Problem, fields: Seq<Field>, counts: Seq<Counts>) -> bool {
    &&& fields.len() <= p.cells()
    &&& counts.len() == fields.len() + 1
    &&& counts[0] == initial_counts(p)
    &&& forall|i: int| 0 <= i < fields.len() ==> #[trigger] follows(p, fields, counts, i)
    &&& forall|i: int| 0 <= i < counts.len() ==> #[trigger] bounded(counts, i)
}

/// The value offered for the next cell agrees with the cell that a half turn
/// maps it to, where the next cell lies in a row of the lower half.
pub open spec fn echoes(p: &Problem, fields: Seq<Field>, field: Field) -> bool {
    let x = fields.len() as int % p.width();
    let y = fields.len() as int / p.width();
    y * 2 >= p.height() ==> crate::grid::cell(p, fields, p.width() - 1 - x, p.height() - 1 - y)
        == crate::field::FieldEx::Field(field)
}

/// What committing `field` after `fields` gives: the cells and the tallies
/// after it, or the rule that it breaks.
pub open spec fn commit(p: &Problem, fields: Seq<Field>, counts: Seq<Counts>, field: Field)
    -> Result<(Seq<Field>, Seq<Counts>), RuleViolation> {
    match step(p, fields.push(field), counts.last()) {
        Ok(c) => Ok((fields.push(field), counts.push(c))),
        Err(e) => Err(e),
    }
}

/// What committing the cells `fields[i - 1]`, ..., `fields[0]`, in this
/// order, after `fields` gives.
pub open spec fn replay(p: &Problem, fields: Seq<Field>, counts: Seq<Counts>, i: nat) -> Result<
    (Seq<Field>, Seq<Counts>),
    RuleViolation,
>
    decreases i,
{
    if i == 0 {
        Ok((fields, counts))
    } else {
        match commit(p, fields, counts, fields[i - 1]) {
            Ok(s) => replay(p, s.0, s.1, (i - 1) as nat),
            Err(e) => Err(e),
        }
    }
}

/// What placing `field` after `fields` gives: the commit of `field`, and
/// where that decides the cell in the middle of the grid, the commits of the
/// first half in reverse order after it.
pub open spec fn place(p: &Problem, fields: Seq<Field>, counts: Seq<Counts>, field: Field)
    -> Result<(Seq<Field>, Seq<Counts>), RuleViolation> {
    match commit(p, fields, counts, field) {
        Ok(s) => if fields.len() * 2 + 1 == p.cells() {
            replay(p, s.0, s.1, fields.len())
        } else {
            Ok(s)
        },
        Err(e) => Err(e),
    }
}

/// A half turn maps every committed cell whose image is committed too to a
/// cell of the same colour.
pub open spec fn mirrored(p: &Problem, fields: Seq<Field>) -> bool {
    forall|i: int|
        0 <= i < fields.len() && 0 <= p.cells() - 1 - i < fields.len() ==> #[trigger] fields[i]
            == fields[p.cells() - 1 - i]
}

/// A layout of the problem: a full grid, unchanged by a half turn, each of
/// whose cells was committed by the rules.
pub open spec fn layout(p: &Problem, grid: Seq<Field>) -> bool {
    &&& grid.len() == p.cells()
    &&& mirrored(p, grid)
    &&& exists|counts: Seq<Counts>| history(p, grid, counts)
}

} // verus!
