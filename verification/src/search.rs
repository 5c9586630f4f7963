use vstd::prelude::*;
use crate::field::{Counts, Field};
use crate::problem::Problem;
use crate::rules::{initial_counts, layout, place};
use crate::state::State;

verus! {

/// The layouts found that begin with `fields`, in the order in which the
/// search meets them: first those that go on with a white cell, then those
/// that go on with a black one.
pub open spec fn solutions_below(p: &Problem, fields: Seq<Field>, counts: Seq<Counts>) -> Seq<
    Seq<Field>,
>
    decreases p.cells() - fields.len(), 1int,
{
    if fields.len() * 2 + 1 > p.cells() {
        Seq::empty()
    } else {
        solutions_with(p, fields, counts, Field::White) + solutions_with(
            p,
            fields,
            counts,
            Field::Black,
        )
    }
}

/// The layouts found that begin with `fields` and go on with `field`.
pub open spec fn solutions_with(p: &Problem, fields: Seq<Field>, counts: Seq<Counts>, field: Field)
    -> Seq<Seq<Field>>
    decreases p.cells() - fields.len(), 0int,
{
    if fields.len() * 2 + 1 > p.cells() {
        Seq::empty()
    } else {
        match place(p, fields, counts, field) {
            Err(_) => Seq::empty(),
            Ok(s) => if fields.len() * 2 + 1 == p.cells() {
                seq![s.0]
            } else {
                solutions_below(p, fields.push(field), s.1)
            },
        }
    }
}

/// The number of candidate cells that the search below `fields` rejects.
pub open spec fn errors_below(p: &Problem, fields: Seq<Field>, counts: Seq<Counts>) -> nat
    decreases p.cells() - fields.len(), 1int,
{
    if fields.len() * 2 + 1 > p.cells() {
        0
    } else {
        errors_with(p, fields, counts, Field::White) + errors_with(
            p,
            fields,
            counts,
            Field::Black,
        )
    }
}

/// The number of candidate cells that the search rejects when it goes on
/// from `fields` with `field`.
pub open spec fn errors_with(p: &Problem, fields: Seq<Field>, counts: Seq<Counts>, field: Field)
    -> nat
    decreases p.cells() - fields.len(), 0int,
{
    if fields.len() * 2 + 1 > p.cells() {
        0
    } else {
        match place(p, fields, counts, field) {
            Err(_) => 1,
            Ok(s) => if fields.len() * 2 + 1 == p.cells() {
                0
            } else {
                errors_below(p, fields.push(field), s.1)
            },
        }
    }
}

/// A count as a 64-bit counter holds it: the counter stops at its greatest
/// value.
pub open spec fn capped(n: int) -> u64 {
    if n > u64::MAX {
        u64::MAX
    } else {
        n as u64
    }
}

/// What a search has found so far.
pub struct SearchState {
    /// The number of layouts found.
    pub solution_count: u64,
    /// The number of candidate cells rejected; it stops at `u64::MAX`.
    pub error_count: u64,
    /// The layouts found, each in row-major order, in the order of discovery.
    pub solutions: Vec<Vec<Field>>,
}

impl SearchState {
    /// The layouts found, as sequences of cells.
    pub open spec fn grids(&self) -> Seq<Seq<Field>> {
        Seq::new(self.solutions@.len(), |i: int| self.solutions@[i]@)
    }

    /// The counter of layouts agrees with the list of layouts.
    pub open spec fn wf(&self) -> bool {
        self.solution_count == self.solutions@.len()
    }

    /// Every grid found from the `from`-th on is a layout of the problem.
    pub open spec fn layouts_from(&self, p: &Problem, from: int) -> bool {
        forall|k: int| from <= k < self.grids().len() ==> layout(p, #[trigger] self.grids()[k])
    }
}

/// Tries `field` as the next cell: a layout that it completes is recorded,
/// an incomplete grid is searched further, a rejection is counted.  The
/// state is then rolled back to where it was.
fn search_with<'p>(state: &mut State<'p>, search_state: &mut SearchState, field: Field)
    requires
        old(state).wf(),
        old(state).problem.cells() % 2 == 1,
        old(state).fields@.len() * 2 + 1 <= old(state).problem.cells(),
        old(search_state).wf(),
    ensures
        final(state).problem == old(state).problem,
        final(state).fields@ == old(state).fields@,
        final(state).counts@ == old(state).counts@,
        final(state).wf(),
        final(search_state).wf(),
        final(search_state).layouts_from(old(state).problem, old(search_state).grids().len() as int),
        final(search_state).grids() == old(search_state).grids() + solutions_with(
            old(state).problem,
            old(state).fields@,
            old(state).counts@,
            field,
        ),
        final(search_state).error_count == capped(
            old(search_state).error_count + errors_with(
                old(state).problem,
                old(state).fields@,
                old(state).counts@,
                field,
            ),
        ),
    decreases old(state).problem.cells() - old(state).fields@.len(), 0int,
{
    let len = state.fields.len();
    match state.push(field) {
        Ok(()) => {
            if state.is_final() {
                let grid = state.snapshot();
                search_state.solutions.push(grid);
                search_state.solution_count = search_state.solutions.len() as u64;
                proof {
                    assert(search_state.grids() =~= old(search_state).grids() + seq![
                        state.fields@,
                    ]);
                }
            } else {
                proof {
                    assert(state.fields@ =~= old(state).fields@.push(field));
                }
                search(state, search_state);
            }
        },
        Err(_) => {
            if search_state.error_count < u64::MAX {
                search_state.error_count += 1;
            }
            proof {
                assert(search_state.grids() =~= old(search_state).grids() + Seq::<
                    Seq<Field>,
                >::empty());
            }
        },
    }
    state.rollback(len);
    proof {
        assert(state.fields@ =~= old(state).fields@);
        assert(state.counts@ =~= old(state).counts@);
    }
}

/// Searches every way to go on from `state`, white before black, to the
/// depth of the middle cell.  Each layout found is appended to
/// `search_state.solutions`, each rejected candidate is counted, and the
/// state is left as it was.
pub fn search<'p>(state: &mut State<'p>, search_state: &mut SearchState)
    requires
        old(state).wf(),
        old(state).problem.cells() % 2 == 1,
        old(state).fields@.len() * 2 + 1 <= old(state).problem.cells(),
        old(search_state).wf(),
    ensures
        final(state).problem == old(state).problem,
        final(state).fields@ == old(state).fields@,
        final(state).counts@ == old(state).counts@,
        final(state).wf(),
        final(search_state).wf(),
        final(search_state).layouts_from(old(state).problem, old(search_state).grids().len() as int),
        final(search_state).grids() == old(search_state).grids() + solutions_below(
            old(state).problem,
            old(state).fields@,
            old(state).counts@,
        ),
        final(search_state).error_count == capped(
            old(search_state).error_count + errors_below(
                old(state).problem,
                old(state).fields@,
                old(state).counts@,
            ),
        ),
    decreases old(state).problem.cells() - old(state).fields@.len(), 1int,
{
    search_with(state, search_state, Field::White);
    search_with(state, search_state, Field::Black);
    proof {
        let p = old(state).problem;
        let f = old(state).fields@;
        let c = old(state).counts@;
        assert(search_state.grids() =~= old(search_state).grids() + (solutions_with(
            p,
            f,
            c,
            Field::White,
        ) + solutions_with(p, f, c, Field::Black)));
    }
}

/// Searches all layouts of a problem whose grid has an odd number of cells.
pub fn search_problem(problem: &Problem) -> (found: SearchState)
    requires
        problem.wf(),
        problem.cells() % 2 == 1,
    ensures
        found.wf(),
        found.layouts_from(problem, 0),
        found.grids() == solutions_below(
            problem,
            Seq::<Field>::empty(),
            seq![initial_counts(problem)],
        ),
        found.error_count == capped(
            errors_below(problem, Seq::<Field>::empty(), seq![initial_counts(problem)]) as int,
        ),
{
    let mut search_state = SearchState {
        solution_count: 0,
        error_count: 0,
        solutions: Vec::new(),
    };
    let mut state = State::new(problem);
    proof {
        problem.lemma_sides();
        assert(search_state.grids() =~= Seq::<Seq<Field>>::empty());
    }
    search(&mut state, &mut search_state);
    proof {
        assert(search_state.grids() =~= solutions_below(
            problem,
            Seq::<Field>::empty(),
            seq![initial_counts(problem)],
        ));
    }
    search_state
}

} // verus!
