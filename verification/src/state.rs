use vstd::prelude::*;
use crate::field::{colour_of, Counts, Field, FieldEx, RuleViolation};
use crate::grid::{
    cell, grid_text, lemma_decided, lemma_half_turn, lemma_index_bounds, lemma_position, row_text,
    rows_text, run,
};
use crate::problem::{greatest, Problem, MINIMUM_WORD_LENGTH};
use crate::rules::{
    bounded, completion_rules, echoes, follows, forward_rules, history, initial_counts, mirrored,
    place, replay, reverse_rules, step,
};

verus! {

/// The cells committed so far, in row-major order, and the tallies after
/// each of them.
pub struct State<'p> {
    pub problem: &'p Problem,
    pub fields: Vec<Field>,
    pub counts: Vec<Counts>,
}

/// A walk over the grid from a position on, in steps of a direction.
pub struct Scan<'s> {
    pub state: &'s State<'s>,
    pub position: (isize, isize),
    pub direction: (isize, isize),
}

impl<'s> Scan<'s> {
    /// Reads the cell at the walk's position and moves one step on.  The
    /// walk never ends: past the border it reads `OutOfBounds`.
    pub fn next(&mut self) -> (item: Option<FieldEx>)
        requires
            old(self).state.problem.wf(),
            isize::MIN <= old(self).position.0 + old(self).direction.0 <= isize::MAX,
            isize::MIN <= old(self).position.1 + old(self).direction.1 <= isize::MAX,
        ensures
            item == Some(
                cell(
                    old(self).state.problem,
                    old(self).state.fields@,
                    old(self).position.0 as int,
                    old(self).position.1 as int,
                ),
            ),
            final(self).position.0 == old(self).position.0 + old(self).direction.0,
            final(self).position.1 == old(self).position.1 + old(self).direction.1,
            final(self).direction == old(self).direction,
            final(self).state == old(self).state,
    {
        let result = self.state.try_at(self.position);
        self.position.0 += self.direction.0;
        self.position.1 += self.direction.1;
        Some(result)
    }
}

/// The greatest number of a list, 0 for the empty list.
fn greatest_of(list: &Vec<usize>) -> (m: usize)
    ensures
        m == greatest(list@),
{
    let mut m: usize = 0;
    let mut i: usize = 0;
    while i < list.len()
        invariant
            i <= list.len(),
            m == greatest(list@.take(i as int)),
        decreases list.len() - i,
    {
        proof {
            assert(list@.take(i + 1).drop_last() =~= list@.take(i as int));
        }
        if list[i] > m {
            m = list[i];
        }
        i += 1;
    }
    proof {
        assert(list@.take(list.len() as int) =~= list@);
    }
    m
}

impl<'p> State<'p> {
    /// The tallies are a history of commits of the cells, by the rules.
    pub open spec fn wf(&self) -> bool {
        self.problem.wf() && history(self.problem, self.fields@, self.counts@)
    }

    /// Whether every cell of the grid is committed.
    pub fn is_final(&self) -> (full: bool)
        requires
            self.problem.wf(),
        ensures
            full == (self.fields@.len() == self.problem.cells()),
    {
        self.fields.len() == self.problem.size.0 * self.problem.size.1
    }

    /// Reads a position: `OutOfBounds` outside the grid, `Unfilled` where
    /// the cell's slot is not committed yet, and the cell's colour
    /// otherwise.  A cell past the midpoint is read from the slot of the
    /// cell that a half turn maps it to.
    pub fn try_at(&self, position: (isize, isize)) -> (found: FieldEx)
        requires
            self.problem.wf(),
        ensures
            found == cell(self.problem, self.fields@, position.0 as int, position.1 as int),
    {
        if !self.problem.in_bounds(position) {
            return FieldEx::OutOfBounds;
        }
        proof {
            self.problem.lemma_sides();
            lemma_index_bounds(self.problem, position.0 as int, position.1 as int);
        }
        let field_count = self.problem.field_count();
        let mut index = (position.1 * self.problem.size.0 as isize + position.0) as usize;
        if index > field_count / 2 {
            index = field_count - 1 - index;
        }
        if index < self.fields.len() {
            FieldEx::Field(self.fields[index])
        } else {
            FieldEx::Unfilled
        }
    }

    /// The colour at a position whose cell is decided, or that lies outside
    /// the grid, where it counts as black.
    pub fn at(&self, position: (isize, isize)) -> (colour: Field)
        requires
            self.problem.wf(),
            cell(self.problem, self.fields@, position.0 as int, position.1 as int)
                != FieldEx::Unfilled,
        ensures
            colour == colour_of(
                cell(self.problem, self.fields@, position.0 as int, position.1 as int),
            ),
    {
        match self.try_at(position) {
            FieldEx::Field(f) => f,
            _ => Field::Black,
        }
    }

    /// A walk from `start` on, in steps of `dir`.
    pub fn scan(&self, start: (isize, isize), dir: (isize, isize)) -> (walk: Scan<'_>)
        ensures
            walk.state == self,
            walk.position == start,
            walk.direction == dir,
    {
        Scan { state: self, position: start, direction: dir }
    }

    /// The state before any cell is committed.
    pub fn new(problem: &'p Problem) -> (state: Self)
        requires
            problem.wf(),
        ensures
            state.problem == problem,
            state.fields@ == Seq::<Field>::empty(),
            state.counts@ == seq![initial_counts(problem)],
            state.wf(),
    {
        let a = greatest_of(&problem.accross);
        let d = greatest_of(&problem.down);
        let mut counts: Vec<Counts> = Vec::new();
        counts.push(
            Counts {
                number: 1,
                accross_used: 0,
                down_used: 0,
                reverse_number: if a > d {
                    a
                } else {
                    d
                },
                reverse_accross_used: 0,
                reverse_down_used: 0,
            },
        );
        let state = State { problem: problem, fields: Vec::new(), counts: counts };
        proof {
            assert(state.counts@ =~= seq![initial_counts(problem)]);
            assert(bounded(state.counts@, 0));
        }
        state
    }

    /// Counts the cells that continue a run, from `start` on in steps of
    /// `dir`, up to the first that does not, and at most `limit`.
    fn count_run(&self, start: (isize, isize), dir: (isize, isize), limit: usize, open: bool) -> (n:
        usize)
        requires
            self.problem.wf(),
            -1 <= dir.0 <= 1,
            -1 <= dir.1 <= 1,
            isize::MIN + limit <= start.0 <= isize::MAX - limit,
            isize::MIN + limit <= start.1 <= isize::MAX - limit,
        ensures
            n == run(
                self.problem,
                self.fields@,
                start.0 as int,
                start.1 as int,
                dir.0 as int,
                dir.1 as int,
                limit as nat,
                open,
            ),
    {
        let mut walk = self.scan(start, dir);
        let mut n: usize = 0;
        let mut going = true;
        while going && n < limit
            invariant
                n <= limit,
                self.problem.wf(),
                walk.state == self,
                walk.direction == dir,
                -1 <= dir.0 <= 1,
                -1 <= dir.1 <= 1,
                isize::MIN + limit <= start.0 <= isize::MAX - limit,
                isize::MIN + limit <= start.1 <= isize::MAX - limit,
                going ==> start.0 - n <= walk.position.0 <= start.0 + n,
                going ==> start.1 - n <= walk.position.1 <= start.1 + n,
                run(
                    self.problem,
                    self.fields@,
                    start.0 as int,
                    start.1 as int,
                    dir.0 as int,
                    dir.1 as int,
                    limit as nat,
                    open,
                ) == n + (if going {
                    run(
                        self.problem,
                        self.fields@,
                        walk.position.0 as int,
                        walk.position.1 as int,
                        dir.0 as int,
                        dir.1 as int,
                        (limit - n) as nat,
                        open,
                    )
                } else {
                    0
                }),
            decreases limit - n + (if going { 1int } else { 0int }),
        {
            let seen = walk.next();
            let on = match seen {
                Some(c) => c == FieldEx::Field(Field::White) || (open && c == FieldEx::Unfilled),
                None => false,
            };
            if on {
                n += 1;
            } else {
                going = false;
            }
        }
        n
    }

    /// Whether `push_one` may be given `field`: a cell is left to commit,
    /// and where the next cell lies in a row of the lower half, `field` is
    /// the colour of the cell that a half turn maps it to.
    pub fn can_push_one(&self, field: Field) -> (ok: bool)
        requires
            self.wf(),
        ensures
            ok == (self.fields@.len() < self.problem.cells() && echoes(
                self.problem,
                self.fields@,
                field,
            )),
    {
        let n = self.fields.len();
        let w = self.problem.size.0;
        let h = self.problem.size.1;
        if n >= self.problem.field_count() {
            return false;
        }
        proof {
            self.problem.lemma_sides();
            lemma_position(self.problem, n as int);
        }
        let x = n % w;
        let y = n / w;
        if y * 2 >= h {
            self.try_at(((w - 1 - x) as isize, (h - 1 - y) as isize)) == FieldEx::Field(field)
        } else {
            true
        }
    }

    /// A copy of the committed cells, in row-major order.
    pub fn snapshot(&self) -> (grid: Vec<Field>)
        ensures
            grid@ == self.fields@,
    {
        let mut grid: Vec<Field> = Vec::new();
        let mut i: usize = 0;
        while i < self.fields.len()
            invariant
                i <= self.fields@.len(),
                grid@ == self.fields@.take(i as int),
            decreases self.fields@.len() - i,
        {
            grid.push(self.fields[i]);
            proof {
                assert(grid@ =~= self.fields@.take(i + 1));
            }
            i += 1;
        }
        proof {
            assert(self.fields@.take(self.fields@.len() as int) =~= self.fields@);
        }
        grid
    }

    /// The grid as text, row by row: `.` for a white cell, `#` for a black
    /// one, `?` for an undecided one, each followed by a space; a carriage
    /// return and a line feed after each row, and once more at the end.
    pub fn render(&self) -> (text: Vec<u8>)
        requires
            self.problem.wf(),
        ensures
            text@ == grid_text(self.problem, self.fields@),
    {
        let w = self.problem.size.0;
        let h = self.problem.size.1;
        proof {
            self.problem.lemma_sides();
        }
        let mut text: Vec<u8> = Vec::new();
        let mut y: usize = 0;
        while y < h
            invariant
                self.problem.wf(),
                w == self.problem.width(),
                h == self.problem.height(),
                w <= isize::MAX,
                h <= isize::MAX,
                y <= h,
                text@ == rows_text(self.problem, self.fields@, y as nat),
            decreases h - y,
        {
            let ghost above = text@;
            let mut x: usize = 0;
            while x < w
                invariant
                    self.problem.wf(),
                    w == self.problem.width(),
                    w <= isize::MAX,
                    h <= isize::MAX,
                    y < h,
                    x <= w,
                    text@ == above + row_text(self.problem, self.fields@, y as int, x as nat),
                decreases w - x,
            {
                let shown: u8 = match self.try_at((x as isize, y as isize)) {
                    FieldEx::Field(Field::White) => 46,
                    FieldEx::Field(Field::Black) => 35,
                    _ => 63,
                };
                text.push(shown);
                text.push(32);
                proof {
                    assert(text@ =~= above + row_text(
                        self.problem,
                        self.fields@,
                        y as int,
                        (x + 1) as nat,
                    ));
                }
                x += 1;
            }
            text.push(13);
            text.push(10);
            proof {
                assert(text@ =~= rows_text(self.problem, self.fields@, (y + 1) as nat));
            }
            y += 1;
        }
        text.push(13);
        text.push(10);
        text
    }

    /// Drops the cells committed after the first `len`, and their tallies.
    pub fn rollback(&mut self, len: usize)
        requires
            old(self).wf(),
            len <= old(self).fields@.len(),
        ensures
            final(self).problem == old(self).problem,
            final(self).fields@ == old(self).fields@.take(len as int),
            final(self).counts@ == old(self).counts@.take(len + 1),
            final(self).wf(),
    {
        self.fields.truncate(len);
        self.counts.truncate(len + 1);
        proof {
            let p = self.problem;
            assert forall|i: int| 0 <= i < self.fields@.len() implies #[trigger] follows(
                p,
                self.fields@,
                self.counts@,
                i,
            ) by {
                assert(follows(p, old(self).fields@, old(self).counts@, i));
                assert(self.fields@.take(i + 1) =~= old(self).fields@.take(i + 1));
            }
            assert forall|i: int| 0 <= i < self.counts@.len() implies #[trigger] bounded(
                self.counts@,
                i,
            ) by {
                assert(bounded(old(self).counts@, i));
            }
        }
    }
}

/// Where twice the cells before the next one, and one more, fit the grid,
/// the next cell lies in a row of the upper half.
pub proof fn lemma_upper_rows(p: &Problem, n: int)
    requires
        p.wf(),
        0 <= n,
        n * 2 + 1 <= p.cells(),
    ensures
        (n / p.width()) * 2 < p.height(),
{
    let w = p.width();
    let h = p.height();
    p.lemma_sides();
    lemma_position(p, n);
    let q = n / w;
    let r = n % w;
    assert(q * 2 < h) by (nonlinear_arith)
        requires
            q * w + r == n,
            0 <= r < w,
            n * 2 + 1 <= w * h,
            0 <= q,
            w >= 1,
    ;
}

/// Past the midpoint, the cell that a half turn maps the next cell to is
/// decided, and its colour is held in the slot `cells - 1 - n`, where `n`
/// cells are committed.
pub proof fn lemma_echo(p: &Problem, fields: Seq<Field>)
    requires
        p.wf(),
        fields.len() < p.cells(),
        fields.len() > p.cells() / 2,
    ensures
        echoes(p, fields, fields[p.cells() - 1 - fields.len()]),
{
    let n = fields.len() as int;
    lemma_position(p, n);
    let x = n % p.width();
    let y = n / p.width();
    lemma_half_turn(p, x, y);
    lemma_decided(p, fields, p.width() - 1 - x, p.height() - 1 - y);
}

impl<'p> State<'p> {
    /// The forward rules on the cell committed last.
    fn forward_check(&self, prev: Counts) -> (r: Result<Counts, RuleViolation>)
        requires
            self.problem.wf(),
            1 <= self.fields@.len() <= self.problem.cells(),
            prev.number <= self.fields@.len(),
        ensures
            r == forward_rules(self.problem, self.fields@, prev),
            r matches Ok(c) ==> c.number <= prev.number + 1,
    {
        let problem = self.problem;
        let n = self.fields.len() - 1;
        proof {
            problem.lemma_sides();
            lemma_position(problem, n as int);
        }
        let x = (n % problem.size.0) as isize;
        let y = (n / problem.size.0) as isize;
        let field = self.fields[n];
        let mut counts = prev;
        proof {
            let w = problem.width();
            assert((y - 1) * w + x == y * w + x - w) by (nonlinear_arith);
            if x >= 1 {
                lemma_decided(problem, self.fields@, x - 1, y as int);
            }
            if y >= 1 {
                lemma_decided(problem, self.fields@, x as int, y - 1);
            }
        }
        match field {
            Field::White => {
                let mut numbered = false;
                if self.at((x - 1, y)) == Field::Black {
                    numbered = true;
                    if !(counts.accross_used < problem.accross.len()
                        && problem.accross[counts.accross_used] == counts.number) {
                        return Err(RuleViolation::NumberWrongAccross);
                    }
                    counts.accross_used += 1;
                    if problem.size.0 as isize - x < MINIMUM_WORD_LENGTH as isize {
                        return Err(RuleViolation::TooLittleSpaceAccross);
                    }
                }
                if self.at((x, y - 1)) == Field::Black {
                    numbered = true;
                    if !(counts.down_used < problem.down.len() && problem.down[counts.down_used]
                        == counts.number) {
                        return Err(RuleViolation::NumberWrongDown);
                    }
                    counts.down_used += 1;
                    let down_white = self.count_run((x, y), (0, 1), MINIMUM_WORD_LENGTH, true);
                    if down_white < MINIMUM_WORD_LENGTH {
                        return Err(RuleViolation::TooLittleSpaceDown);
                    }
                }
                if numbered {
                    counts.number += 1;
                }
            },
            Field::Black => {
                let left_white = self.count_run((x - 1, y), (-1, 0), MINIMUM_WORD_LENGTH, false);
                if left_white != 0 && left_white < MINIMUM_WORD_LENGTH {
                    return Err(RuleViolation::WordTooShortAccross);
                }
                let up_white = self.count_run((x, y - 1), (0, -1), MINIMUM_WORD_LENGTH, false);
                if up_white != 0 && up_white < MINIMUM_WORD_LENGTH {
                    return Err(RuleViolation::WordTooShortDown);
                }
            },
        }
        Ok(counts)
    }

    /// The rules of the turned grid's scan on the cell above the one
    /// committed last.
    fn reverse_check(&self, c: Counts) -> (r: Result<Counts, RuleViolation>)
        requires
            self.problem.wf(),
            1 <= self.fields@.len() <= self.problem.cells(),
        ensures
            r == reverse_rules(self.problem, self.fields@, c),
            r matches Ok(after) ==> after.number == c.number,
    {
        let problem = self.problem;
        let n = self.fields.len() - 1;
        proof {
            problem.lemma_sides();
            lemma_position(problem, n as int);
        }
        let x = (n % problem.size.0) as isize;
        let y = (n / problem.size.0) as isize;
        let mut counts = c;
        proof {
            let w = problem.width();
            assert((y - 1) * w + x == y * w + x - w) by (nonlinear_arith);
            assert((y - 1) * w + (x + 1) == y * w + x - w + 1) by (nonlinear_arith);
            lemma_decided(problem, self.fields@, x as int, y as int);
            if y >= 1 {
                lemma_decided(problem, self.fields@, x as int, y - 1);
                if x + 1 < w {
                    lemma_decided(problem, self.fields@, x + 1, y - 1);
                }
            }
        }
        if self.at((x, y - 1)) == Field::White {
            let mut numbered = false;
            if self.at((x, y)) == Field::Black {
                numbered = true;
                if !(counts.reverse_down_used < problem.down.len() && problem.down[problem.down.len()
                    - 1 - counts.reverse_down_used] == counts.reverse_number) {
                    return Err(RuleViolation::NumberWrongDownReverse);
                }
                counts.reverse_down_used += 1;
            }
            if self.at((x + 1, y - 1)) == Field::Black {
                numbered = true;
                if !(counts.reverse_accross_used < problem.accross.len()
                    && problem.accross[problem.accross.len() - 1 - counts.reverse_accross_used]
                    == counts.reverse_number) {
                    return Err(RuleViolation::NumberWrongAccrossReverse);
                }
                counts.reverse_accross_used += 1;
            }
            if numbered {
                counts.reverse_number -= 1;
            }
        }
        Ok(counts)
    }

    /// The rule on a full grid: no clue is left over.
    fn completion_check(&self, c: Counts) -> (r: Result<Counts, RuleViolation>)
        requires
            self.problem.wf(),
        ensures
            r == completion_rules(self.problem, self.fields@, c),
            r matches Ok(after) ==> after.number == c.number,
    {
        if self.fields.len() == self.problem.field_count() {
            if c.accross_used != self.problem.accross.len() {
                return Err(RuleViolation::LeftOverAccross);
            }
            if c.down_used != self.problem.down.len() {
                return Err(RuleViolation::LeftOverDown);
            }
        }
        Ok(c)
    }

    /// Commits `field` as the next cell in row-major order, if no rule
    /// speaks against it: the cell and the tallies after it are appended.
    /// Otherwise the state is left as it was and the first broken rule is
    /// returned.
    pub fn push_one(&mut self, field: Field) -> (r: Result<(), RuleViolation>)
        requires
            old(self).wf(),
            old(self).fields@.len() < old(self).problem.cells(),
            echoes(old(self).problem, old(self).fields@, field),
        ensures
            final(self).problem == old(self).problem,
            final(self).wf(),
            match step(
                old(self).problem,
                old(self).fields@.push(field),
                old(self).counts@.last(),
            ) {
                Ok(c) => {
                    &&& r == Ok::<(), RuleViolation>(())
                    &&& final(self).fields@ == old(self).fields@.push(field)
                    &&& final(self).counts@ == old(self).counts@.push(c)
                },
                Err(e) => {
                    &&& r == Err::<(), RuleViolation>(e)
                    &&& final(self).fields@ == old(self).fields@
                    &&& final(self).counts@ == old(self).counts@
                },
            },
    {
        let n = self.fields.len();
        let prev = self.counts[n];
        proof {
            assert(bounded(self.counts@, n as int));
        }
        self.fields.push(field);
        let checked = match self.forward_check(prev) {
            Err(e) => Err(e),
            Ok(c) => match self.reverse_check(c) {
                Err(e) => Err(e),
                Ok(c) => self.completion_check(c),
            },
        };
        match checked {
            Ok(c) => {
                self.counts.push(c);
                proof {
                    let p = self.problem;
                    assert forall|i: int| 0 <= i < self.fields@.len() implies #[trigger] follows(
                        p,
                        self.fields@,
                        self.counts@,
                        i,
                    ) by {
                        if i < n {
                            assert(follows(p, old(self).fields@, old(self).counts@, i));
                            assert(self.fields@.take(i + 1) =~= old(self).fields@.take(i + 1));
                        } else {
                            assert(self.fields@.take(i + 1) =~= self.fields@);
                        }
                    }
                    assert forall|i: int| 0 <= i < self.counts@.len() implies #[trigger] bounded(
                        self.counts@,
                        i,
                    ) by {
                        if i <= n {
                            assert(bounded(old(self).counts@, i));
                        }
                    }
                }
                Ok(())
            },
            Err(e) => {
                self.fields.pop();
                proof {
                    assert(self.fields@ =~= old(self).fields@);
                }
                Err(e)
            },
        }
    }

    /// Places `field` as the next cell of the first half of the grid.  Where
    /// that is the cell in the middle, the first half is then committed
    /// again in reverse order, which fills the grid.  If a rule is broken on
    /// the way, the state is left as it was and the rule is returned.
    pub fn push(&mut self, field: Field) -> (r: Result<(), RuleViolation>)
        requires
            old(self).wf(),
            old(self).fields@.len() * 2 + 1 <= old(self).problem.cells(),
        ensures
            final(self).problem == old(self).problem,
            final(self).wf(),
            match place(old(self).problem, old(self).fields@, old(self).counts@, field) {
                Ok(s) => {
                    &&& r == Ok::<(), RuleViolation>(())
                    &&& final(self).fields@ == s.0
                    &&& final(self).counts@ == s.1
                },
                Err(e) => {
                    &&& r == Err::<(), RuleViolation>(e)
                    &&& final(self).fields@ == old(self).fields@
                    &&& final(self).counts@ == old(self).counts@
                },
            },
            r is Ok && old(self).fields@.len() * 2 + 1 == old(self).problem.cells()
                ==> final(self).fields@.len() == old(self).problem.cells(),
            r is Ok && old(self).fields@.len() * 2 + 1 != old(self).problem.cells()
                ==> final(self).fields@.len() == old(self).fields@.len() + 1,
            r is Ok ==> mirrored(old(self).problem, final(self).fields@),
            final(self).fields@.len() >= old(self).fields@.len(),
            final(self).fields@.take(old(self).fields@.len() as int) == old(self).fields@,
            final(self).counts@.take(old(self).counts@.len() as int) == old(self).counts@,
    {
        let n = self.fields.len();
        let total = self.problem.field_count();
        proof {
            lemma_upper_rows(self.problem, n as int);
        }
        match self.push_one(field) {
            Err(e) => {
                proof {
                    assert(self.fields@.take(n as int) =~= self.fields@);
                    assert(self.counts@.take(n + 1) =~= self.counts@);
                }
                return Err(e);
            },
            Ok(()) => {},
        }
        proof {
            assert(self.fields@.take(n as int) =~= old(self).fields@);
            assert(self.counts@.take(n + 1) =~= old(self).counts@);
        }
        if n * 2 + 1 == total {
            let mut i = n;
            while i > 0
                invariant
                    self.problem == old(self).problem,
                    self.wf(),
                    total == self.problem.cells(),
                    n * 2 + 1 == total,
                    n == old(self).fields@.len(),
                    i <= n,
                    self.fields@.len() == total - i,
                    mirrored(self.problem, self.fields@),
                    self.fields@.take(n as int) == old(self).fields@,
                    self.counts@.take(n + 1) == old(self).counts@,
                    replay(self.problem, self.fields@, self.counts@, i as nat) == place(
                        old(self).problem,
                        old(self).fields@,
                        old(self).counts@,
                        field,
                    ),
                decreases i,
            {
                let again = self.fields[i - 1];
                let ghost before_fields = self.fields@;
                let ghost before_counts = self.counts@;
                proof {
                    lemma_echo(self.problem, self.fields@);
                }
                match self.push_one(again) {
                    Ok(()) => {
                        proof {
                            assert(self.fields@ == before_fields.push(again));
                            assert(before_fields.take(n as int)[i - 1] == before_fields[i - 1]);
                            assert(self.fields@.take(n as int) =~= before_fields.take(n as int));
                            assert(self.counts@.take(n + 1) =~= before_counts.take(n + 1));
                        }
                    },
                    Err(e) => {
                        self.rollback(n);
                        return Err(e);
                    },
                }
                i -= 1;
            }
        }
        Ok(())
    }
}

} // verus!
