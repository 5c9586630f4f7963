use vstd::prelude::*;
use crate::field::{Field, FieldEx};
use crate::problem::Problem;

verus! {

/// Whether the position `(x, y)` lies inside the grid.
pub open spec fn in_grid(p: &Problem, x: int, y: int) -> bool {
    0 <= x < p.width() && 0 <= y < p.height()
}

/// The storage slot of the cell with row-major index `index`: a cell past
/// the midpoint shares the slot of the cell that a half turn maps it to.
pub open spec fn slot(p: &Problem, index: int) -> int {
    if index > p.cells() / 2 {
        p.cells() - 1 - index
    } else {
        index
    }
}

/// What a read of position `(x, y)` yields when `fields` are the cells
/// committed so far.
pub open spec fn cell(p: &Problem, fields: Seq<Field>, x: int, y: int) -> FieldEx {
    if !in_grid(p, x, y) {
        FieldEx::OutOfBounds
    } else if slot(p, y * p.width() + x) < fields.len() {
        FieldEx::Field(fields[slot(p, y * p.width() + x)])
    } else {
        FieldEx::Unfilled
    }
}

/// The position holds a white cell.
pub open spec fn is_white(p: &Problem, fields: Seq<Field>, x: int, y: int) -> bool {
    cell(p, fields, x, y) == FieldEx::Field(Field::White)
}

/// The position holds a black cell or lies outside the grid.
pub open spec fn is_black(p: &Problem, fields: Seq<Field>, x: int, y: int) -> bool {
    cell(p, fields, x, y) == FieldEx::Field(Field::Black) || cell(p, fields, x, y)
        == FieldEx::OutOfBounds
}

/// Whether a cell continues a run: a white cell does, and an undecided one
/// does where the run is counted as room for a word (`open`).
pub open spec fn continues(c: FieldEx, open: bool) -> bool {
    c == FieldEx::Field(Field::White) || (open && c == FieldEx::Unfilled)
}

/// The number of cells that continue a run, from `(x, y)` on in steps of
/// `(dx, dy)`, up to the first that does not, and at most `limit`.
pub open spec fn run(
    p: &Problem,
    fields: Seq<Field>,
    x: int,
    y: int,
    dx: int,
    dy: int,
    limit: nat,
    open: bool,
) -> nat
    decreases limit,
{
    if limit == 0 {
        0
    } else if continues(cell(p, fields, x, y), open) {
        1 + run(p, fields, x + dx, y + dy, dx, dy, (limit - 1) as nat, open)
    } else {
        0
    }
}

/// The character that shows a cell: `.` for white, `#` for black, `?` for
/// an undecided one.
pub open spec fn symbol(c: FieldEx) -> u8 {
    match c {
        FieldEx::Field(Field::White) => 46,
        FieldEx::Field(Field::Black) => 35,
        _ => 63,
    }
}

/// The text of the first `n` cells of row `y`: for each cell its symbol and
/// a space.
pub open spec fn row_text(p: &Problem, fields: Seq<Field>, y: int, n: nat) -> Seq<u8>
    decreases n,
{
    if n == 0 {
        Seq::empty()
    } else {
        row_text(p, fields, y, (n - 1) as nat).push(symbol(cell(p, fields, n - 1, y))).push(32)
    }
}

/// The text of the first `m` rows: each row's text, then a carriage return
/// and a line feed.
pub open spec fn rows_text(p: &Problem, fields: Seq<Field>, m: nat) -> Seq<u8>
    decreases m,
{
    if m == 0 {
        Seq::empty()
    } else {
        (rows_text(p, fields, (m - 1) as nat) + row_text(
            p,
            fields,
            m - 1,
            p.width() as nat,
        )).push(13).push(10)
    }
}

/// The text of the grid: its rows, then an empty line.
pub open spec fn grid_text(p: &Problem, fields: Seq<Field>) -> Seq<u8> {
    rows_text(p, fields, p.height() as nat).push(13).push(10)
}

/// The row-major index of a position inside the grid is below the number of
/// cells.
pub proof fn lemma_index_bounds(p: &Problem, x: int, y: int)
    requires
        p.wf(),
        in_grid(p, x, y),
    ensures
        0 <= y * p.width() + x < p.cells(),
{
    let w = p.width();
    let h = p.height();
    assert(0 <= y * w + x < w * h) by (nonlinear_arith)
        requires
            0 <= x < w,
            0 <= y < h,
    ;
}

/// The cell with index `n` lies in column `n % width` of row `n / width`.
pub proof fn lemma_position(p: &Problem, n: int)
    requires
        p.wf(),
        0 <= n < p.cells(),
    ensures
        in_grid(p, n % p.width(), n / p.width()),
        (n / p.width()) * p.width() + n % p.width() == n,
{
    let w = p.width();
    let h = p.height();
    vstd::arithmetic::div_mod::lemma_fundamental_div_mod(n, w);
    vstd::arithmetic::div_mod::lemma_mod_bound(n, w);
    let q = n / w;
    let r = n % w;
    assert(w * q == q * w) by (nonlinear_arith);
    assert(0 <= q < h) by (nonlinear_arith)
        requires
            q * w + r == n,
            0 <= r < w,
            0 <= n < w * h,
            w >= 1,
    ;
}

/// A half turn maps the cell with index `i` to the cell with index
/// `cells - 1 - i`.
pub proof fn lemma_half_turn(p: &Problem, x: int, y: int)
    requires
        p.wf(),
        in_grid(p, x, y),
    ensures
        in_grid(p, p.width() - 1 - x, p.height() - 1 - y),
        (p.height() - 1 - y) * p.width() + (p.width() - 1 - x) == p.cells() - 1 - (y * p.width()
            + x),
{
    let w = p.width();
    let h = p.height();
    assert((h - 1 - y) * w + (w - 1 - x) == w * h - 1 - (y * w + x)) by (nonlinear_arith);
}

/// A cell whose index is below the number of committed cells is decided.
pub proof fn lemma_decided(p: &Problem, fields: Seq<Field>, x: int, y: int)
    requires
        p.wf(),
        in_grid(p, x, y),
        y * p.width() + x < fields.len(),
    ensures
        cell(p, fields, x, y) == FieldEx::Field(fields[slot(p, y * p.width() + x)]),
        0 <= slot(p, y * p.width() + x) <= y * p.width() + x,
{
    lemma_index_bounds(p, x, y);
}

} // verus!
