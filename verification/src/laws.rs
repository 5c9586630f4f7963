use vstd::prelude::*;
use crate::field::{Counts, Field, FieldEx, RuleViolation};
use crate::grid::{
    cell, in_grid, is_black, is_white, lemma_half_turn, lemma_index_bounds, lemma_position, run,
};
use crate::problem::Problem;
use crate::rules::{
    bounded, column, commit, completion_rules, follows, forward_rules, history, initial_counts,
    layout, mirrored, place, replay, reverse_rules, row, starts_accross, starts_down, step,
};
use crate::search::{solutions_below, solutions_with};

verus! {

/// On a grid with an odd number of cells, a read of a position and a read
/// of the position that a half turn maps it to give the same, whatever is
/// committed.
pub proof fn lemma_reads_symmetric(p: &Problem, fields: Seq<Field>, x: int, y: int)
    requires
        p.wf(),
        p.cells() % 2 == 1,
    ensures
        cell(p, fields, x, y) == cell(p, fields, p.width() - 1 - x, p.height() - 1 - y),
{
    if in_grid(p, x, y) {
        lemma_half_turn(p, x, y);
        lemma_index_bounds(p, x, y);
    }
}

/// In a layout, a read of a position gives the colour stored for that cell,
/// and the cell that a half turn maps it to has the same colour.
pub proof fn lemma_layout_symmetric(p: &Problem, grid: Seq<Field>, x: int, y: int)
    requires
        p.wf(),
        layout(p, grid),
        in_grid(p, x, y),
    ensures
        cell(p, grid, x, y) == FieldEx::Field(grid[y * p.width() + x]),
        cell(p, grid, x, y) == cell(p, grid, p.width() - 1 - x, p.height() - 1 - y),
        grid[y * p.width() + x] == grid[p.cells() - 1 - (y * p.width() + x)],
{
    lemma_half_turn(p, x, y);
    lemma_index_bounds(p, x, y);
    lemma_index_bounds(p, p.width() - 1 - x, p.height() - 1 - y);
    let i = y * p.width() + x;
    assert(grid[i] == grid[p.cells() - 1 - i]);
    let j = p.cells() - 1 - i;
    assert(grid[j] == grid[p.cells() - 1 - j]);
}

/// Dropping what an attempted commit appended restores the cells and the
/// tallies exactly, whether the commit was accepted or refused.
pub proof fn lemma_rollback_restores(
    p: &Problem,
    fields: Seq<Field>,
    counts: Seq<Counts>,
    field: Field,
)
    requires
        counts.len() == fields.len() + 1,
    ensures
        match commit(p, fields, counts, field) {
            Ok(s) => s.0.take(fields.len() as int) == fields && s.1.take(counts.len() as int)
                == counts,
            Err(_) => fields.take(fields.len() as int) == fields && counts.take(
                counts.len() as int,
            ) == counts,
        },
{
    assert(fields.take(fields.len() as int) =~= fields);
    assert(counts.take(counts.len() as int) =~= counts);
    match commit(p, fields, counts, field) {
        Ok(s) => {
            assert(s.0.take(fields.len() as int) =~= fields);
            assert(s.1.take(counts.len() as int) =~= counts);
        },
        Err(_) => {},
    }
}

/// The cell in column `x` of row `y` has an index whose column and row are
/// `x` and `y`.
pub proof fn lemma_index_position(p: &Problem, x: int, y: int)
    requires
        p.wf(),
        in_grid(p, x, y),
    ensures
        (y * p.width() + x) % p.width() == x,
        (y * p.width() + x) / p.width() == y,
{
    vstd::arithmetic::div_mod::lemma_fundamental_div_mod_converse(
        y * p.width() + x,
        p.width(),
        y,
        x,
    );
}

/// A read of a cell whose index is below `k`, or of a position outside the
/// grid, gives the same after the first `k` commits as in the end.
pub proof fn lemma_prefix_read(p: &Problem, grid: Seq<Field>, k: int, x: int, y: int)
    requires
        p.wf(),
        0 <= k <= grid.len(),
        in_grid(p, x, y) ==> y * p.width() + x < k,
    ensures
        cell(p, grid.take(k), x, y) == cell(p, grid, x, y),
{
    if in_grid(p, x, y) {
        lemma_index_bounds(p, x, y);
    }
}

/// What the history of a layout says of the commit of the cell in column
/// `x` of row `y`: the forward rules accepted it, as the cell of that
/// position and of the colour that the layout shows there.
pub proof fn lemma_commit_at(p: &Problem, grid: Seq<Field>, counts: Seq<Counts>, x: int, y: int)
    requires
        p.wf(),
        grid.len() == p.cells(),
        mirrored(p, grid),
        history(p, grid, counts),
        in_grid(p, x, y),
    ensures
        0 <= y * p.width() + x < p.cells(),
        column(p, grid.take(y * p.width() + x + 1)) == x,
        row(p, grid.take(y * p.width() + x + 1)) == y,
        cell(p, grid, x, y) == FieldEx::Field(grid.take(y * p.width() + x + 1).last()),
        step(p, grid.take(y * p.width() + x + 1), counts[y * p.width() + x]) == Ok::<
            Counts,
            RuleViolation,
        >(counts[y * p.width() + x + 1]),
        forward_rules(p, grid.take(y * p.width() + x + 1), counts[y * p.width() + x]) is Ok,
{
    let i = y * p.width() + x;
    lemma_index_bounds(p, x, y);
    lemma_index_position(p, x, y);
    assert(follows(p, grid, counts, i));
    assert(grid[i] == grid[p.cells() - 1 - i]);
}

/// In a layout no across word is shorter than three cells: a white cell
/// with a black cell or the border to its left has two white cells to its
/// right.
pub proof fn lemma_accross_words_long(p: &Problem, grid: Seq<Field>, x: int, y: int)
    requires
        p.wf(),
        layout(p, grid),
        in_grid(p, x, y),
        is_white(p, grid, x, y),
        is_black(p, grid, x - 1, y),
    ensures
        is_white(p, grid, x + 1, y),
        is_white(p, grid, x + 2, y),
{
    let counts = choose|counts: Seq<Counts>| history(p, grid, counts);
    let w = p.width();
    let i = y * w + x;
    reveal_with_fuel(run, 4);
    lemma_commit_at(p, grid, counts, x, y);
    lemma_prefix_read(p, grid, i + 1, x - 1, y);
    assert(starts_accross(p, grid.take(i + 1)));
    assert(w - x >= 3);
    // the cell to the right
    lemma_commit_at(p, grid, counts, x + 1, y);
    lemma_prefix_read(p, grid, i + 2, x - 1, y);
    lemma_prefix_read(p, grid, i + 2, x, y);
    assert(is_white(p, grid, x + 1, y));
    // and the cell after it
    lemma_commit_at(p, grid, counts, x + 2, y);
    lemma_prefix_read(p, grid, i + 3, x - 1, y);
    lemma_prefix_read(p, grid, i + 3, x, y);
    lemma_prefix_read(p, grid, i + 3, x + 1, y);
}

/// In a layout no down word is shorter than three cells: a white cell with
/// a black cell or the border above it has two white cells below it.
pub proof fn lemma_down_words_long(p: &Problem, grid: Seq<Field>, x: int, y: int)
    requires
        p.wf(),
        layout(p, grid),
        in_grid(p, x, y),
        is_white(p, grid, x, y),
        is_black(p, grid, x, y - 1),
    ensures
        is_white(p, grid, x, y + 1),
        is_white(p, grid, x, y + 2),
{
    let counts = choose|counts: Seq<Counts>| history(p, grid, counts);
    let w = p.width();
    let i = y * w + x;
    reveal_with_fuel(run, 4);
    assert((y - 1) * w + x == i - w && (y + 1) * w + x == i + w && (y + 2) * w + x == i + 2 * w)
        by (nonlinear_arith)
        requires
            i == y * w + x,
    ;
    lemma_commit_at(p, grid, counts, x, y);
    lemma_prefix_read(p, grid, i + 1, x, y - 1);
    assert(starts_down(p, grid.take(i + 1)));
    assert(run(p, grid.take(i + 1), x, y, 0, 1, 3, true) >= 3);
    assert(in_grid(p, x, y + 1));
    assert(in_grid(p, x, y + 2));
    // the cell below
    lemma_commit_at(p, grid, counts, x, y + 1);
    lemma_prefix_read(p, grid, i + w + 1, x, y - 1);
    lemma_prefix_read(p, grid, i + w + 1, x, y);
    assert(is_white(p, grid, x, y + 1));
    // and the cell below that
    lemma_commit_at(p, grid, counts, x, y + 2);
    lemma_prefix_read(p, grid, i + 2 * w + 1, x, y - 1);
    lemma_prefix_read(p, grid, i + 2 * w + 1, x, y);
    lemma_prefix_read(p, grid, i + 2 * w + 1, x, y + 1);
}

/// The cell with row-major index `i` begins an across word of the grid.
pub open spec fn begins_accross(p: &Problem, grid: Seq<Field>, i: int) -> bool {
    is_white(p, grid, i % p.width(), i / p.width()) && is_black(
        p,
        grid,
        i % p.width() - 1,
        i / p.width(),
    )
}

/// The cell with row-major index `i` begins a down word of the grid.
pub open spec fn begins_down(p: &Problem, grid: Seq<Field>, i: int) -> bool {
    is_white(p, grid, i % p.width(), i / p.width()) && is_black(
        p,
        grid,
        i % p.width(),
        i / p.width() - 1,
    )
}

/// The clue number that the cell with index `i` gets if it begins a word:
/// one more than the number of cells before it that begin a word.
pub open spec fn clue_number(p: &Problem, grid: Seq<Field>, i: int) -> int
    decreases i,
{
    if i <= 0 {
        1
    } else if begins_accross(p, grid, i - 1) || begins_down(p, grid, i - 1) {
        clue_number(p, grid, i - 1) + 1
    } else {
        clue_number(p, grid, i - 1)
    }
}

/// The clue numbers of the across words that begin in the first `n` cells,
/// in row-major order.
pub open spec fn accross_clues(p: &Problem, grid: Seq<Field>, n: int) -> Seq<int>
    decreases n,
{
    if n <= 0 {
        Seq::empty()
    } else if begins_accross(p, grid, n - 1) {
        accross_clues(p, grid, n - 1).push(clue_number(p, grid, n - 1))
    } else {
        accross_clues(p, grid, n - 1)
    }
}

/// The clue numbers of the down words that begin in the first `n` cells, in
/// row-major order.
pub open spec fn down_clues(p: &Problem, grid: Seq<Field>, n: int) -> Seq<int>
    decreases n,
{
    if n <= 0 {
        Seq::empty()
    } else if begins_down(p, grid, n - 1) {
        down_clues(p, grid, n - 1).push(clue_number(p, grid, n - 1))
    } else {
        down_clues(p, grid, n - 1)
    }
}

/// A clue list as a sequence of numbers.
pub open spec fn as_numbers(list: Seq<usize>) -> Seq<int> {
    Seq::new(list.len(), |k: int| list[k] as int)
}

/// After `n` commits of a layout's history, the forward tallies say what
/// the first `n` cells of the layout hold: the next clue number, and how
/// many clues of each list the words that begin there have used, which are
/// the first of each list.
pub proof fn lemma_numbering_prefix(p: &Problem, grid: Seq<Field>, counts: Seq<Counts>, n: int)
    requires
        p.wf(),
        grid.len() == p.cells(),
        mirrored(p, grid),
        history(p, grid, counts),
        0 <= n <= p.cells(),
    ensures
        counts[n].number == clue_number(p, grid, n),
        counts[n].accross_used <= p.accross@.len(),
        counts[n].down_used <= p.down@.len(),
        accross_clues(p, grid, n) == as_numbers(p.accross@).take(counts[n].accross_used as int),
        down_clues(p, grid, n) == as_numbers(p.down@).take(counts[n].down_used as int),
        n == p.cells() ==> counts[n].accross_used == p.accross@.len() && counts[n].down_used
            == p.down@.len(),
    decreases n,
{
    let accross = as_numbers(p.accross@);
    let down = as_numbers(p.down@);
    if n == 0 {
        assert(accross.take(0) =~= Seq::<int>::empty());
        assert(down.take(0) =~= Seq::<int>::empty());
        p.lemma_sides();
    } else {
        let i = n - 1;
        let w = p.width();
        lemma_numbering_prefix(p, grid, counts, i);
        lemma_position(p, i);
        let x = i % w;
        let y = i / w;
        lemma_commit_at(p, grid, counts, x, y);
        assert((y - 1) * w + x == i - w) by (nonlinear_arith)
            requires
                i == y * w + x,
        ;
        lemma_prefix_read(p, grid, i + 1, x - 1, y);
        lemma_prefix_read(p, grid, i + 1, x, y - 1);
        let pre = grid.take(i + 1);
        let a = starts_accross(p, pre);
        let d = starts_down(p, pre);
        assert(a == begins_accross(p, grid, i));
        assert(d == begins_down(p, grid, i));
        assert(bounded(counts, i));
        assert(p.accross.len() == p.accross@.len() && p.down.len() == p.down@.len());
        let c0 = counts[i];
        let c1 = forward_rules(p, pre, c0)->Ok_0;
        let c2 = reverse_rules(p, pre, c1)->Ok_0;
        assert(completion_rules(p, pre, c2) == Ok::<Counts, RuleViolation>(counts[n]));
        assert(counts[n] == c2);
        assert(c2.number == c1.number && c2.accross_used == c1.accross_used && c2.down_used
            == c1.down_used);
        if a {
            assert(accross.take(c0.accross_used as int).push(accross[c0.accross_used as int])
                =~= accross.take(c0.accross_used + 1));
        }
        if d {
            assert(down.take(c0.down_used as int).push(down[c0.down_used as int]) =~= down.take(
                c0.down_used + 1,
            ));
        }
    }
}

/// A layout numbers its words as the problem demands: the clue numbers of
/// the across words, in row-major order of the cells where they begin, are
/// the across list, and those of the down words are the down list.
pub proof fn lemma_layout_numbering(p: &Problem, grid: Seq<Field>)
    requires
        p.wf(),
        layout(p, grid),
    ensures
        accross_clues(p, grid, p.cells()) == as_numbers(p.accross@),
        down_clues(p, grid, p.cells()) == as_numbers(p.down@),
{
    let counts = choose|counts: Seq<Counts>| history(p, grid, counts);
    p.lemma_sides();
    lemma_numbering_prefix(p, grid, counts, p.cells());
    assert(as_numbers(p.accross@).take(p.accross@.len() as int) =~= as_numbers(p.accross@));
    assert(as_numbers(p.down@).take(p.down@.len() as int) =~= as_numbers(p.down@));
}

/// Committing the next cell of a layout after the cells before it gives
/// the next step of the layout's history.
pub proof fn lemma_commit_follows(p: &Problem, grid: Seq<Field>, counts: Seq<Counts>, k: int)
    requires
        history(p, grid, counts),
        0 <= k < grid.len(),
    ensures
        commit(p, grid.take(k), counts.take(k + 1), grid[k]) == Ok::<
            (Seq<Field>, Seq<Counts>),
            RuleViolation,
        >((grid.take(k + 1), counts.take(k + 2))),
{
    assert(follows(p, grid, counts, k));
    assert(grid.take(k).push(grid[k]) =~= grid.take(k + 1));
    assert(counts.take(k + 1).push(counts[k + 1]) =~= counts.take(k + 2));
}

/// Once more than half of a layout is committed, committing the first half
/// again in reverse order gives the layout.
pub proof fn lemma_replay_completes(p: &Problem, grid: Seq<Field>, counts: Seq<Counts>, k: int)
    requires
        p.wf(),
        grid.len() == p.cells(),
        mirrored(p, grid),
        history(p, grid, counts),
        p.cells() / 2 < k <= p.cells(),
    ensures
        replay(p, grid.take(k), counts.take(k + 1), (p.cells() - k) as nat) == Ok::<
            (Seq<Field>, Seq<Counts>),
            RuleViolation,
        >((grid, counts)),
    decreases p.cells() - k,
{
    if k == p.cells() {
        assert(grid.take(k) =~= grid);
        assert(counts.take(k + 1) =~= counts);
    } else {
        assert(grid[k] == grid[p.cells() - 1 - k]);
        assert(grid.take(k)[p.cells() - k - 1] == grid[k]);
        lemma_commit_follows(p, grid, counts, k);
        lemma_replay_completes(p, grid, counts, k + 1);
    }
}

/// The search that has committed the first `n` cells of a layout, in the
/// upper half of the grid, finds the layout.
pub proof fn lemma_search_reaches(p: &Problem, grid: Seq<Field>, counts: Seq<Counts>, n: int)
    requires
        p.wf(),
        p.cells() % 2 == 1,
        grid.len() == p.cells(),
        mirrored(p, grid),
        history(p, grid, counts),
        0 <= n,
        n * 2 + 1 <= p.cells(),
    ensures
        solutions_below(p, grid.take(n), counts.take(n + 1)).contains(grid),
    decreases p.cells() - n,
{
    let fields = grid.take(n);
    let tallies = counts.take(n + 1);
    lemma_commit_follows(p, grid, counts, n);
    if n * 2 + 1 == p.cells() {
        lemma_replay_completes(p, grid, counts, n + 1);
        assert(place(p, fields, tallies, grid[n]) == Ok::<
            (Seq<Field>, Seq<Counts>),
            RuleViolation,
        >((grid, counts)));
        assert(seq![grid][0] == grid);
    } else {
        lemma_search_reaches(p, grid, counts, n + 1);
        assert(fields.push(grid[n]) =~= grid.take(n + 1));
    }
    let with = solutions_with(p, fields, tallies, grid[n]);
    assert(with.contains(grid));
    let k = choose|k: int| 0 <= k < with.len() && with[k] == grid;
    let white = solutions_with(p, fields, tallies, Field::White);
    let black = solutions_with(p, fields, tallies, Field::Black);
    if grid[n] == Field::White {
        assert((white + black)[k] == grid);
    } else {
        assert((white + black)[white.len() + k] == grid);
    }
}

/// The search is exhaustive: on a grid with an odd number of cells it finds
/// every layout of the problem.
pub proof fn lemma_search_finds_every_layout(p: &Problem, grid: Seq<Field>)
    requires
        p.wf(),
        p.cells() % 2 == 1,
        layout(p, grid),
    ensures
        solutions_below(p, Seq::<Field>::empty(), seq![initial_counts(p)]).contains(grid),
{
    let counts = choose|counts: Seq<Counts>| history(p, grid, counts);
    p.lemma_sides();
    lemma_search_reaches(p, grid, counts, 0);
    assert(grid.take(0) =~= Seq::<Field>::empty());
    assert(counts.take(1) =~= seq![initial_counts(p)]);
}

/// A commit that the rules accept extends a history by one step.
pub proof fn lemma_commit_history(
    p: &Problem,
    fields: Seq<Field>,
    counts: Seq<Counts>,
    field: Field,
)
    requires
        p.wf(),
        history(p, fields, counts),
        fields.len() < p.cells(),
        commit(p, fields, counts, field) is Ok,
    ensures
        history(
            p,
            commit(p, fields, counts, field)->Ok_0.0,
            commit(p, fields, counts, field)->Ok_0.1,
        ),
        commit(p, fields, counts, field)->Ok_0.0 == fields.push(field),
        commit(p, fields, counts, field)->Ok_0.1.len() == counts.len() + 1,
{
    let n = fields.len() as int;
    let after = commit(p, fields, counts, field)->Ok_0;
    let prev = counts.last();
    let c1 = forward_rules(p, fields.push(field), prev)->Ok_0;
    let c2 = reverse_rules(p, fields.push(field), c1)->Ok_0;
    assert(bounded(counts, n));
    assert(after.1[n + 1].number == c2.number && c2.number == c1.number);
    assert forall|i: int| 0 <= i < after.0.len() implies #[trigger] follows(
        p,
        after.0,
        after.1,
        i,
    ) by {
        if i < n {
            assert(follows(p, fields, counts, i));
            assert(after.0.take(i + 1) =~= fields.take(i + 1));
        } else {
            assert(after.0.take(i + 1) =~= after.0);
        }
    }
    assert forall|i: int| 0 <= i < after.1.len() implies #[trigger] bounded(after.1, i) by {
        if i <= n {
            assert(bounded(counts, i));
        }
    }
}

/// Where more than half of the grid is committed and unchanged by a half
/// turn, a successful replay of the first half in reverse order gives a
/// layout.
pub proof fn lemma_replay_layout(p: &Problem, fields: Seq<Field>, counts: Seq<Counts>, i: nat)
    requires
        p.wf(),
        history(p, fields, counts),
        mirrored(p, fields),
        fields.len() + i == p.cells(),
        i < fields.len(),
        replay(p, fields, counts, i) is Ok,
    ensures
        layout(p, replay(p, fields, counts, i)->Ok_0.0),
        history(p, replay(p, fields, counts, i)->Ok_0.0, replay(p, fields, counts, i)->Ok_0.1),
    decreases i,
{
    if i > 0 {
        let field = fields[i - 1];
        lemma_commit_history(p, fields, counts, field);
        let after = commit(p, fields, counts, field)->Ok_0;
        assert forall|a: int|
            0 <= a < after.0.len() && 0 <= p.cells() - 1 - a < after.0.len() implies
            #[trigger] after.0[a] == after.0[p.cells() - 1 - a] by {
            let b = p.cells() - 1 - a;
            if a < fields.len() && b < fields.len() {
                assert(fields[a] == fields[b]);
            }
        }
        lemma_replay_layout(p, after.0, after.1, (i - 1) as nat);
    }
}

/// The search is sound: every grid that it finds below a history in the
/// upper half of a grid with an odd number of cells is a layout.
pub proof fn lemma_search_finds_layouts(
    p: &Problem,
    fields: Seq<Field>,
    counts: Seq<Counts>,
    grid: Seq<Field>,
)
    requires
        p.wf(),
        p.cells() % 2 == 1,
        history(p, fields, counts),
        fields.len() * 2 + 1 <= p.cells(),
        solutions_below(p, fields, counts).contains(grid),
    ensures
        layout(p, grid),
    decreases p.cells() - fields.len(),
{
    let white = solutions_with(p, fields, counts, Field::White);
    let black = solutions_with(p, fields, counts, Field::Black);
    let k = choose|k: int| 0 <= k < (white + black).len() && (white + black)[k] == grid;
    let field = if k < white.len() {
        Field::White
    } else {
        Field::Black
    };
    let with = solutions_with(p, fields, counts, field);
    let j = if k < white.len() {
        k
    } else {
        k - white.len()
    };
    assert(with[j] == grid);
    lemma_commit_history(p, fields, counts, field);
    let after = commit(p, fields, counts, field)->Ok_0;
    if fields.len() * 2 + 1 == p.cells() {
        assert(mirrored(p, after.0));
        lemma_replay_layout(p, after.0, after.1, fields.len());
    } else {
        assert(solutions_below(p, after.0, after.1)[j] == grid);
        lemma_search_finds_layouts(p, after.0, after.1, grid);
    }
}

} // verus!
