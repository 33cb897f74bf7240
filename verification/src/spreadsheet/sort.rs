//! Sorting of cells by row and column.

use crate::spreadsheet::cell::cell_views;
use crate::spreadsheet::cell::Cell;
use crate::spreadsheet::cell::CellView;
use vstd::prelude::*;

verus! {

/// Whether cell `a` may stand before cell `b`.
pub open spec fn in_order(a: CellView, b: CellView) -> bool {
    a.row < b.row || (a.row == b.row && a.col <= b.col)
}

/// Whether the cells stand in order.
pub open spec fn is_sorted(cells: Seq<CellView>) -> bool {
    forall|i: int, j: int|
        0 <= i <= j < cells.len() ==> in_order(#[trigger] cells[i], #[trigger] cells[j])
}

/// The cells at one position.
pub open spec fn cells_at(cells: Seq<CellView>, row: usize, col: usize) -> Seq<CellView>
    decreases cells.len(),
{
    if cells.len() == 0 {
        Seq::empty()
    } else {
        let front = cells_at(cells.drop_last(), row, col);
        if cells.last().row == row && cells.last().col == col {
            front.push(cells.last())
        } else {
            front
        }
    }
}

/// Whether `sorted` holds the cells of `cells` in order, cells at the same position
/// among each other as they stood.
pub open spec fn is_stable_sort(cells: Seq<CellView>, sorted: Seq<CellView>) -> bool {
    &&& is_sorted(sorted)
    &&& forall|row: usize, col: usize|
        #[trigger] cells_at(sorted, row, col) == cells_at(cells, row, col)
}

/// The cells in order, cells at the same position among each other as they stood.
pub open spec fn sorted_cells(cells: Seq<CellView>) -> Seq<CellView> {
    choose|sorted: Seq<CellView>| is_stable_sort(cells, sorted)
}

proof fn lemma_cells_at_concat(a: Seq<CellView>, b: Seq<CellView>, row: usize, col: usize)
    ensures
        cells_at(a + b, row, col) == cells_at(a, row, col) + cells_at(b, row, col),
    decreases b.len(),
{
    if b.len() == 0 {
        assert(a + b =~= a);
        assert(cells_at(a, row, col) + cells_at(b, row, col) =~= cells_at(a, row, col));
    } else {
        lemma_cells_at_concat(a, b.drop_last(), row, col);
        assert((a + b).drop_last() =~= a + b.drop_last());
        assert((a + b).last() == b.last());
        assert(cells_at(a + b, row, col) =~= cells_at(a, row, col) + cells_at(b, row, col));
    }
}

proof fn lemma_cells_at_one(cell: CellView, row: usize, col: usize)
    ensures
        cells_at(seq![cell], row, col) == if cell.row == row && cell.col == col {
            seq![cell]
        } else {
            Seq::empty()
        },
{
    assert(seq![cell].drop_last() =~= Seq::<CellView>::empty());
    reveal_with_fuel(cells_at, 2);
    assert(cells_at(seq![cell], row, col) =~= if cell.row == row && cell.col == col {
        seq![cell]
    } else {
        Seq::empty()
    });
}

proof fn lemma_cells_at_none(cells: Seq<CellView>, row: usize, col: usize)
    requires
        forall|i: int|
            0 <= i < cells.len() ==> (#[trigger] cells[i]).row != row || cells[i].col != col,
    ensures
        cells_at(cells, row, col) == Seq::<CellView>::empty(),
    decreases cells.len(),
{
    if cells.len() > 0 {
        lemma_cells_at_none(cells.drop_last(), row, col);
        assert(cells[cells.len() - 1] == cells.last());
    }
}

proof fn lemma_cells_at_member(cells: Seq<CellView>, row: usize, col: usize)
    requires
        cells_at(cells, row, col).len() > 0,
    ensures
        exists|i: int| 0 <= i < cells.len() && (#[trigger] cells[i]).row == row && cells[i].col == col,
{
    if !(exists|i: int|
        0 <= i < cells.len() && (#[trigger] cells[i]).row == row && cells[i].col == col) {
        lemma_cells_at_none(cells, row, col);
    }
}

proof fn lemma_cells_at_first(cells: Seq<CellView>, row: usize, col: usize)
    requires
        cells.len() > 0,
    ensures
        cells_at(cells, row, col) == cells_at(seq![cells[0]], row, col) + cells_at(
            cells.drop_first(),
            row,
            col,
        ),
{
    assert(cells =~= seq![cells[0]] + cells.drop_first());
    lemma_cells_at_concat(seq![cells[0]], cells.drop_first(), row, col);
}

/// There is only one way to sort cells and leave those at the same position as
/// they stood.
pub proof fn lemma_stable_sort_unique(a: Seq<CellView>, b: Seq<CellView>)
    requires
        is_sorted(a),
        is_sorted(b),
        forall|row: usize, col: usize|
            #[trigger] cells_at(a, row, col) == cells_at(b, row, col),
    ensures
        a == b,
    decreases a.len(),
{
    if a.len() == 0 {
        if b.len() > 0 {
            let (row, col) = (b[0].row, b[0].col);
            lemma_cells_at_first(b, row, col);
            lemma_cells_at_one(b[0], row, col);
            assert(cells_at(a, row, col).len() == 0);
        }
        assert(a =~= b);
    } else {
        let (row, col) = (a[0].row, a[0].col);
        lemma_cells_at_first(a, row, col);
        lemma_cells_at_one(a[0], row, col);
        assert(cells_at(b, row, col).len() > 0);
        lemma_cells_at_member(b, row, col);
        let j = choose|j: int|
            0 <= j < b.len() && (#[trigger] b[j]).row == row && b[j].col == col;
        assert(in_order(b[0], b[j]));
        let (brow, bcol) = (b[0].row, b[0].col);
        lemma_cells_at_first(b, brow, bcol);
        lemma_cells_at_one(b[0], brow, bcol);
        assert(cells_at(a, brow, bcol).len() > 0);
        lemma_cells_at_member(a, brow, bcol);
        let i = choose|i: int|
            0 <= i < a.len() && (#[trigger] a[i]).row == brow && a[i].col == bcol;
        assert(in_order(a[0], a[i]));
        assert(cells_at(a, row, col)[0] == a[0]);
        assert(cells_at(b, row, col)[0] == b[0]);
        assert(a[0] == b[0]);
        let (a1, b1) = (a.drop_first(), b.drop_first());
        assert forall|r: usize, c: usize| #[trigger] cells_at(a1, r, c) == cells_at(b1, r, c) by {
            lemma_cells_at_first(a, r, c);
            lemma_cells_at_first(b, r, c);
            let head = cells_at(seq![a[0]], r, c);
            assert(cells_at(a, r, c) == cells_at(b, r, c));
            assert(cells_at(a1, r, c) =~= cells_at(a, r, c).skip(head.len() as int));
            assert(cells_at(b1, r, c) =~= cells_at(b, r, c).skip(head.len() as int));
        }
        assert(is_sorted(a1)) by {
            assert forall|p: int, q: int| 0 <= p <= q < a1.len() implies in_order(
                #[trigger] a1[p],
                #[trigger] a1[q],
            ) by {
                assert(a1[p] == a[p + 1] && a1[q] == a[q + 1]);
            }
        }
        assert(is_sorted(b1)) by {
            assert forall|p: int, q: int| 0 <= p <= q < b1.len() implies in_order(
                #[trigger] b1[p],
                #[trigger] b1[q],
            ) by {
                assert(b1[p] == b[p + 1] && b1[q] == b[q + 1]);
            }
        }
        lemma_stable_sort_unique(a1, b1);
        assert(a =~= seq![a[0]] + a1);
        assert(b =~= seq![b[0]] + b1);
    }
}

/// A stable sort of cells is the one that [`sorted_cells`] names.
pub proof fn lemma_is_sorted_cells(cells: Seq<CellView>, sorted: Seq<CellView>)
    requires
        is_stable_sort(cells, sorted),
    ensures
        sorted == sorted_cells(cells),
{
    let named = sorted_cells(cells);
    assert(is_stable_sort(cells, named));
    assert forall|row: usize, col: usize| #[trigger] cells_at(sorted, row, col) == cells_at(
        named,
        row,
        col,
    ) by {
        assert(cells_at(named, row, col) == cells_at(cells, row, col));
    }
    lemma_stable_sort_unique(sorted, named);
}

/// How many of the first `n` cells of a sorted list may stand before a cell.
spec fn place_of(cells: Seq<CellView>, cell: CellView, n: int) -> int
    decreases n,
{
    if n <= 0 || in_order(cells[n - 1], cell) {
        n
    } else {
        place_of(cells, cell, n - 1)
    }
}

proof fn lemma_place_of(cells: Seq<CellView>, cell: CellView, n: int)
    requires
        0 <= n <= cells.len(),
        forall|i: int| n <= i < cells.len() ==> !in_order(#[trigger] cells[i], cell),
    ensures
        0 <= place_of(cells, cell, n) <= n,
        place_of(cells, cell, n) > 0 ==> in_order(cells[place_of(cells, cell, n) - 1], cell),
        forall|i: int|
            place_of(cells, cell, n) <= i < cells.len() ==> !in_order(#[trigger] cells[i], cell),
    decreases n,
{
    if n > 0 && !in_order(cells[n - 1], cell) {
        lemma_place_of(cells, cell, n - 1);
    }
}

/// Any cells can be sorted.
pub proof fn lemma_sorted_cells(cells: Seq<CellView>)
    ensures
        is_stable_sort(cells, sorted_cells(cells)),
    decreases cells.len(),
{
    if cells.len() == 0 {
        assert(is_stable_sort(cells, cells));
    } else {
        let rest = cells.drop_last();
        let cell = cells.last();
        lemma_sorted_cells(rest);
        let t = sorted_cells(rest);
        let p = place_of(t, cell, t.len() as int);
        lemma_place_of(t, cell, t.len() as int);
        let (low, high) = (t.take(p), t.skip(p));
        let sorted = low + seq![cell] + high;
        assert(t =~= low + high);
        assert(cells =~= rest + seq![cell]);
        assert(is_sorted(sorted)) by {
            assert forall|i: int, j: int| 0 <= i <= j < sorted.len() implies in_order(
                #[trigger] sorted[i],
                #[trigger] sorted[j],
            ) by {
                let a = if i < p {
                    t[i]
                } else if i == p {
                    cell
                } else {
                    t[i - 1]
                };
                let b = if j < p {
                    t[j]
                } else if j == p {
                    cell
                } else {
                    t[j - 1]
                };
                assert(sorted[i] == a && sorted[j] == b);
                if i < p && j == p {
                    assert(in_order(t[i], t[p - 1]));
                }
            }
        }
        assert forall|row: usize, col: usize| #[trigger] cells_at(sorted, row, col) == cells_at(
            cells,
            row,
            col,
        ) by {
            lemma_cells_at_concat(low + seq![cell], high, row, col);
            lemma_cells_at_concat(low, seq![cell], row, col);
            lemma_cells_at_concat(low, high, row, col);
            lemma_cells_at_concat(rest, seq![cell], row, col);
            lemma_cells_at_one(cell, row, col);
            assert(cells_at(t, row, col) == cells_at(rest, row, col));
            if cell.row == row && cell.col == col {
                assert forall|i: int| 0 <= i < high.len() implies (#[trigger] high[i]).row != row
                    || high[i].col != col by {
                    assert(high[i] == t[p + i]);
                }
                lemma_cells_at_none(high, row, col);
            }
            assert(cells_at(sorted, row, col) =~= cells_at(cells, row, col));
        }
        assert(is_stable_sort(cells, sorted));
    }
}

proof fn lemma_cells_at_origin(cells: Seq<CellView>, row: usize, col: usize, i: int)
    requires
        0 <= i < cells_at(cells, row, col).len(),
    ensures
        cells.contains(cells_at(cells, row, col)[i]),
    decreases cells.len(),
{
    let front = cells.drop_last();
    let found = cells_at(cells, row, col)[i];
    if i < cells_at(front, row, col).len() {
        lemma_cells_at_origin(front, row, col, i);
        let j = choose|j: int| 0 <= j < front.len() && front[j] == found;
        assert(cells[j] == found);
    } else {
        assert(found == cells.last());
        assert(cells[cells.len() - 1] == found);
    }
}

proof fn lemma_cells_at_contains(cells: Seq<CellView>, i: int)
    requires
        0 <= i < cells.len(),
    ensures
        cells_at(cells, cells[i].row, cells[i].col).contains(cells[i]),
    decreases cells.len(),
{
    let cell = cells[i];
    let front = cells.drop_last();
    let found = cells_at(cells, cell.row, cell.col);
    if i == cells.len() - 1 {
        assert(found[found.len() - 1] == cell);
    } else {
        assert(front[i] == cell);
        lemma_cells_at_contains(front, i);
        let before = cells_at(front, cell.row, cell.col);
        let j = choose|j: int| 0 <= j < before.len() && before[j] == cell;
        assert(found[j] == cell);
    }
}

/// Sorting neither adds nor drops a cell.
pub proof fn lemma_sorting_keeps_cells(cells: Seq<CellView>, cell: CellView)
    ensures
        sorted_cells(cells).contains(cell) <==> cells.contains(cell),
{
    let sorted = sorted_cells(cells);
    lemma_sorted_cells(cells);
    let found = cells_at(cells, cell.row, cell.col);
    assert(cells_at(sorted, cell.row, cell.col) == found);
    if sorted.contains(cell) {
        let i = choose|i: int| 0 <= i < sorted.len() && sorted[i] == cell;
        lemma_cells_at_contains(sorted, i);
        let j = choose|j: int| 0 <= j < found.len() && found[j] == cell;
        lemma_cells_at_origin(cells, cell.row, cell.col, j);
    }
    if cells.contains(cell) {
        let i = choose|i: int| 0 <= i < cells.len() && cells[i] == cell;
        lemma_cells_at_contains(cells, i);
        let j = choose|j: int| 0 <= j < found.len() && found[j] == cell;
        lemma_cells_at_origin(sorted, cell.row, cell.col, j);
    }
}

/// Whether no two cells share a position.
pub open spec fn positions_differ(cells: Seq<CellView>) -> bool {
    forall|i: int, j: int|
        0 <= i < j < cells.len() ==> (#[trigger] cells[i]).row != (#[trigger] cells[j]).row
            || cells[i].col != cells[j].col
}

proof fn lemma_at_most_one_at(cells: Seq<CellView>, row: usize, col: usize)
    requires
        positions_differ(cells),
    ensures
        cells_at(cells, row, col).len() <= 1,
    decreases cells.len(),
{
    if cells.len() > 0 {
        let rest = cells.drop_last();
        lemma_at_most_one_at(rest, row, col);
        if cells.last().row == row && cells.last().col == col {
            assert forall|i: int| 0 <= i < rest.len() implies (#[trigger] rest[i]).row != row
                || rest[i].col != col by {
                assert(rest[i] == cells[i]);
                assert(cells[cells.len() - 1] == cells.last());
            }
            lemma_cells_at_none(rest, row, col);
        }
    }
}

proof fn lemma_two_at(cells: Seq<CellView>, i: int, j: int)
    requires
        0 <= i < j < cells.len(),
        cells[i].row == cells[j].row,
        cells[i].col == cells[j].col,
    ensures
        cells_at(cells, cells[i].row, cells[i].col).len() >= 2,
{
    let (row, col) = (cells[i].row, cells[i].col);
    let (front, back) = (cells.take(j), cells.skip(j));
    assert(cells =~= front + back);
    lemma_cells_at_concat(front, back, row, col);
    assert(front[i] == cells[i]);
    assert(back[0] == cells[j]);
    lemma_cells_at_contains(front, i);
    lemma_cells_at_contains(back, 0);
}

/// Where no two cells share a position, none do so once they are sorted.
pub proof fn lemma_sorting_keeps_positions_apart(cells: Seq<CellView>)
    requires
        positions_differ(cells),
    ensures
        positions_differ(sorted_cells(cells)),
{
    let sorted = sorted_cells(cells);
    lemma_sorted_cells(cells);
    assert forall|i: int, j: int| 0 <= i < j < sorted.len() implies (#[trigger] sorted[i]).row != (
    #[trigger] sorted[j]).row || sorted[i].col != sorted[j].col by {
        let (row, col) = (sorted[i].row, sorted[i].col);
        if sorted[j].row == row && sorted[j].col == col {
            lemma_two_at(sorted, i, j);
            lemma_at_most_one_at(cells, row, col);
            assert(cells_at(sorted, row, col) == cells_at(cells, row, col));
        }
    }
}

/// The reverse of a sequence of cells, by its last element first.
spec fn reversed(cells: Seq<Cell>) -> Seq<Cell>
    decreases cells.len(),
{
    if cells.len() == 0 {
        Seq::empty()
    } else {
        seq![cells.last()] + reversed(cells.drop_last())
    }
}

fn may_precede(a: &Cell, b: &Cell) -> (res: bool)
    ensures
        res == in_order(a@, b@),
{
    a.row < b.row || (a.row == b.row && a.col <= b.col)
}

/// Moves all cells from the end of `from` to the end of `to`.
fn pour(from: Vec<Cell>, to: &mut Vec<Cell>)
    ensures
        final(to)@ == old(to)@ + reversed(from@),
{
    let mut from = from;
    let ghost whole = from@;
    let ghost start = to@;
    proof {
        assert(start + reversed(whole) =~= to@ + reversed(from@));
    }
    while from.len() > 0
        invariant
            start + reversed(whole) == to@ + reversed(from@),
        decreases from@.len(),
    {
        let ghost before = from@;
        let ghost poured = to@;
        match from.pop() {
            Some(cell) => {
                to.push(cell);
                proof {
                    assert(poured + reversed(before) =~= to@ + reversed(from@));
                }
            },
            None => {},
        }
    }
    proof {
        assert(to@ + reversed(from@) =~= to@);
    }
}

proof fn lemma_reversed_push(cells: Seq<Cell>, cell: Cell)
    ensures
        cell_views(reversed(cells.push(cell))) == seq![cell@] + cell_views(reversed(cells)),
{
    assert(cells.push(cell).drop_last() =~= cells);
    assert(cell_views(reversed(cells.push(cell))) =~= seq![cell@] + cell_views(reversed(cells)));
}

/// One step of merging: the greater of the last cells goes to the front of what
/// was merged.
proof fn lemma_merge_step(
    a: Seq<CellView>,
    b: Seq<CellView>,
    merged: Seq<CellView>,
    from_b: bool,
    row: usize,
    col: usize,
)
    requires
        is_sorted(a),
        is_sorted(b),
        from_b ==> b.len() > 0,
        !from_b ==> a.len() > 0 && (b.len() > 0 ==> !in_order(a.last(), b.last())),
    ensures
        from_b ==> cells_at(a + b, row, col) + cells_at(merged, row, col) == cells_at(
            a + b.drop_last(),
            row,
            col,
        ) + cells_at(seq![b.last()] + merged, row, col),
        !from_b ==> cells_at(a + b, row, col) + cells_at(merged, row, col) == cells_at(
            a.drop_last() + b,
            row,
            col,
        ) + cells_at(seq![a.last()] + merged, row, col),
{
    lemma_cells_at_concat(a, b, row, col);
    if from_b {
        let last = b.last();
        assert(b =~= b.drop_last() + seq![last]);
        lemma_cells_at_concat(b.drop_last(), seq![last], row, col);
        lemma_cells_at_concat(a, b.drop_last(), row, col);
        lemma_cells_at_concat(seq![last], merged, row, col);
        assert(cells_at(a + b, row, col) + cells_at(merged, row, col) =~= cells_at(
            a + b.drop_last(),
            row,
            col,
        ) + cells_at(seq![last] + merged, row, col));
    } else {
        let last = a.last();
        assert(a =~= a.drop_last() + seq![last]);
        lemma_cells_at_concat(a.drop_last(), seq![last], row, col);
        lemma_cells_at_concat(a.drop_last(), b, row, col);
        lemma_cells_at_concat(seq![last], merged, row, col);
        lemma_cells_at_one(last, row, col);
        if last.row == row && last.col == col {
            assert forall|i: int| 0 <= i < b.len() implies (#[trigger] b[i]).row != row || b[i].col
                != col by {
                assert(in_order(b[i], b[b.len() - 1]));
            }
            lemma_cells_at_none(b, row, col);
        }
        assert(cells_at(a + b, row, col) + cells_at(merged, row, col) =~= cells_at(
            a.drop_last() + b,
            row,
            col,
        ) + cells_at(seq![last] + merged, row, col));
    }
}

/// Merges two sorted lists; where cells have the same position, those of the first
/// list come first.
fn merge(a: Vec<Cell>, b: Vec<Cell>) -> (res: Vec<Cell>)
    requires
        is_sorted(cell_views(a@)),
        is_sorted(cell_views(b@)),
    ensures
        is_stable_sort(cell_views(a@) + cell_views(b@), cell_views(res@)),
{
    let ghost all = cell_views(a@) + cell_views(b@);
    let mut a = a;
    let mut b = b;
    let mut merged: Vec<Cell> = Vec::new();
    proof {
        assert(cell_views(reversed(merged@)) =~= Seq::<CellView>::empty());
        assert forall|row: usize, col: usize| #[trigger] cells_at(all, row, col) == cells_at(
            cell_views(a@) + cell_views(b@),
            row,
            col,
        ) + cells_at(cell_views(reversed(merged@)), row, col) by {
            assert(cells_at(all, row, col) + Seq::<CellView>::empty() =~= cells_at(all, row, col));
        }
    }
    while a.len() > 0 || b.len() > 0
        invariant
            is_sorted(cell_views(a@)),
            is_sorted(cell_views(b@)),
            is_sorted(cell_views(reversed(merged@))),
            cell_views(reversed(merged@)).len() == merged@.len(),
            merged@.len() > 0 ==> {
                let first = cell_views(reversed(merged@))[0];
                &&& forall|i: int|
                    0 <= i < a@.len() ==> in_order(#[trigger] cell_views(a@)[i], first)
                &&& forall|i: int|
                    0 <= i < b@.len() ==> in_order(#[trigger] cell_views(b@)[i], first)
            },
            forall|row: usize, col: usize|
                #[trigger] cells_at(all, row, col) == cells_at(
                    cell_views(a@) + cell_views(b@),
                    row,
                    col,
                ) + cells_at(cell_views(reversed(merged@)), row, col),
        decreases a@.len() + b@.len(),
    {
        let ghost (va, vb, vm) = (
            cell_views(a@),
            cell_views(b@),
            cell_views(reversed(merged@)),
        );
        let from_b: bool = if b.len() == 0 {
            false
        } else if a.len() == 0 {
            true
        } else {
            may_precede(&a[a.len() - 1], &b[b.len() - 1])
        };
        let taken = if from_b {
            b.pop()
        } else {
            a.pop()
        };
        match taken {
            Some(cell) => {
                let ghost view = cell@;
                let ghost before = merged@;
                merged.push(cell);
                proof {
                    if from_b {
                        assert(cell_views(b@) =~= vb.drop_last());
                        assert(view == vb.last());
                    } else {
                        assert(cell_views(a@) =~= va.drop_last());
                        assert(view == va.last());
                    }
                    lemma_reversed_push(before, cell);
                    let now = cell_views(reversed(merged@));
                    assert(now == seq![view] + vm);
                    assert forall|row: usize, col: usize| #[trigger] cells_at(all, row, col)
                        == cells_at(cell_views(a@) + cell_views(b@), row, col) + cells_at(
                        now,
                        row,
                        col,
                    ) by {
                        lemma_merge_step(va, vb, vm, from_b, row, col);
                    }
                    assert(is_sorted(now)) by {
                        assert forall|i: int, j: int| 0 <= i <= j < now.len() implies in_order(
                            #[trigger] now[i],
                            #[trigger] now[j],
                        ) by {
                            if i > 0 {
                                assert(now[i] == vm[i - 1] && now[j] == vm[j - 1]);
                            } else if j > 0 {
                                assert(now[j] == vm[j - 1]);
                                assert(in_order(vm[0], vm[j - 1]));
                                if from_b {
                                    assert(in_order(vb[vb.len() - 1], vm[0]));
                                } else {
                                    assert(in_order(va[va.len() - 1], vm[0]));
                                }
                            }
                        }
                    }
                    assert forall|i: int| 0 <= i < a@.len() implies in_order(
                        #[trigger] cell_views(a@)[i],
                        now[0],
                    ) by {
                        assert(cell_views(a@)[i] == va[i]);
                        assert(in_order(va[i], va[va.len() - 1]));
                    }
                    assert forall|i: int| 0 <= i < b@.len() implies in_order(
                        #[trigger] cell_views(b@)[i],
                        now[0],
                    ) by {
                        assert(cell_views(b@)[i] == vb[i]);
                        assert(in_order(vb[i], vb[vb.len() - 1]));
                    }
                }
            },
            None => {},
        }
    }
    let ghost merged_cells = merged@;
    let mut res: Vec<Cell> = Vec::new();
    pour(merged, &mut res);
    proof {
        assert(res@ =~= reversed(merged_cells));
        assert(cell_views(a@) + cell_views(b@) =~= Seq::<CellView>::empty());
        assert forall|row: usize, col: usize| #[trigger] cells_at(cell_views(res@), row, col)
            == cells_at(all, row, col) by {
            let rest = cells_at(Seq::<CellView>::empty(), row, col);
            assert(rest + cells_at(cell_views(res@), row, col) =~= cells_at(
                cell_views(res@),
                row,
                col,
            ));
        }
    }
    res
}

/// Sorts cells by row and column; cells at the same position stay as they stood.
pub fn sort_cells(cells: Vec<Cell>) -> (res: Vec<Cell>)
    ensures
        is_stable_sort(cell_views(cells@), cell_views(res@)),
        cell_views(res@) == sorted_cells(cell_views(cells@)),
    decreases cells@.len(),
{
    let ghost views = cell_views(cells@);
    if cells.len() <= 1 {
        proof {
            assert(is_stable_sort(views, views));
            lemma_is_sorted_cells(views, views);
        }
        return cells;
    }
    let mut front = cells;
    let middle: usize = front.len() / 2;
    let back: Vec<Cell> = front.split_off(middle);
    let ghost (vf, vb) = (cell_views(front@), cell_views(back@));
    proof {
        assert(views =~= vf + vb);
    }
    let front_sorted = sort_cells(front);
    let back_sorted = sort_cells(back);
    let ghost (sf, sb) = (cell_views(front_sorted@), cell_views(back_sorted@));
    let res = merge(front_sorted, back_sorted);
    proof {
        assert forall|row: usize, col: usize| #[trigger] cells_at(cell_views(res@), row, col)
            == cells_at(views, row, col) by {
            lemma_cells_at_concat(vf, vb, row, col);
            lemma_cells_at_concat(sf, sb, row, col);
            assert(cells_at(sf, row, col) == cells_at(vf, row, col));
            assert(cells_at(sb, row, col) == cells_at(vb, row, col));
        }
        lemma_is_sorted_cells(views, cell_views(res@));
    }
    res
}

} // verus!
