//! Algorithm X as a mathematical function of the grid model.
//!
//! The search is described by the sequence of its steps. Every step either
//! selects a row, which may complete a solution, or takes the most recent
//! selection back. The solutions, in the order in which the search finds
//! them, are the results of the steps that complete one.

use crate::grid::{indices, lemma_filter_indices, strictly_ascending, GridModel};
use vstd::prelude::*;

verus! {

/// The outcome of one step of the search: a completed solution, as the rows
/// selected from the first to the last, or nothing.
pub type Step = Option<Seq<usize>>;

/// The model after `columns` have been covered, in order.
pub open spec fn cover_all(m: GridModel, columns: Seq<usize>) -> GridModel {
    GridModel { covered: m.covered + columns, ..m }
}

/// The uncovered columns that are not optional, ascending.
pub open spec fn open_columns(m: GridModel, optional: Set<usize>) -> Seq<usize> {
    m.uncovered_columns().filter(|c: usize| !optional.contains(c))
}

/// No mandatory column is left uncovered.
pub open spec fn solved(m: GridModel, optional: Set<usize>) -> bool {
    open_columns(m, optional).len() == 0
}

/// The first of `columns` among those with the fewest live rows.
pub open spec fn best_of(m: GridModel, columns: Seq<usize>) -> usize
    decreases columns.len(),
{
    if columns.len() <= 1 {
        columns[0]
    } else {
        let best = best_of(m, columns.drop_last());
        if m.live_rows(columns.last()).len() < m.live_rows(best).len() {
            columns.last()
        } else {
            best
        }
    }
}

/// The column that the search branches on: the first mandatory uncovered
/// column among those with the fewest live rows.
pub open spec fn pick(m: GridModel, optional: Set<usize>) -> usize {
    best_of(m, open_columns(m, optional))
}

/// The number of uncovered columns.
pub open spec fn measure(m: GridModel) -> nat {
    m.uncovered_columns().len()
}

/// The steps of the search below a state that is not solved, with the rows
/// `chosen` selected so far.
pub open spec fn explore(m: GridModel, optional: Set<usize>, chosen: Seq<usize>) -> Seq<Step>
    decreases measure(m), 1nat, 0nat,
{
    try_rows(m, optional, chosen, m.live_rows(pick(m, optional)), 0)
}

/// The steps that try the candidates `rows[from..]` one after the other:
/// select the row and cover its columns, search below unless that completes
/// a solution, then take the selection back.
pub open spec fn try_rows(
    m: GridModel,
    optional: Set<usize>,
    chosen: Seq<usize>,
    rows: Seq<usize>,
    from: nat,
) -> Seq<Step>
    decreases measure(m), 0nat, rows.len() - from,
{
    if from >= rows.len() {
        Seq::empty()
    } else {
        select_row(m, optional, chosen, rows[from as int]) + seq![None] + try_rows(
            m,
            optional,
            chosen,
            rows,
            from + 1,
        )
    }
}

/// The steps from selecting `row` up to, but without, taking it back.
pub open spec fn select_row(
    m: GridModel,
    optional: Set<usize>,
    chosen: Seq<usize>,
    row: usize,
) -> Seq<Step>
    decreases measure(m), 0nat, 0nat,
{
    let below = cover_all(m, m.row_columns(row));
    if solved(below, optional) {
        seq![Some(chosen.push(row))]
    } else if measure(below) < measure(m) {
        seq![None] + explore(below, optional, chosen.push(row))
    } else {
        seq![None]
    }
}

/// The steps of the whole search. A matrix without mandatory columns is
/// searched in no steps.
pub open spec fn run(m: GridModel, optional: Set<usize>) -> Seq<Step> {
    if solved(m, optional) {
        Seq::empty()
    } else {
        explore(m, optional, Seq::empty())
    }
}

/// The solutions that the steps complete, in order.
pub open spec fn solutions_in(steps: Seq<Step>) -> Seq<Seq<usize>>
    decreases steps.len(),
{
    if steps.len() == 0 {
        Seq::empty()
    } else {
        match steps[0] {
            Some(solution) => seq![solution] + solutions_in(steps.skip(1)),
            None => solutions_in(steps.skip(1)),
        }
    }
}

/// The solutions of the exact cover problem that `m` and `optional` state, in
/// the order in which the search finds them.
pub open spec fn solutions(m: GridModel, optional: Set<usize>) -> Seq<Seq<usize>> {
    solutions_in(run(m, optional))
}

/// A filtered list is shorter than the list filtered by a weaker condition
/// that some entry meets without meeting the stronger one.
pub proof fn lemma_filter_shorter(
    n: nat,
    weak: spec_fn(usize) -> bool,
    strong: spec_fn(usize) -> bool,
    witness: usize,
)
    requires
        n <= usize::MAX,
        forall|x: usize| #[trigger] strong(x) ==> weak(x),
    ensures
        indices(n).filter(strong).len() <= indices(n).filter(weak).len(),
        1 <= witness <= n && weak(witness) && !strong(witness) ==> indices(n).filter(strong).len()
            < indices(n).filter(weak).len(),
    decreases n,
{
    if n == 0 {
        assert(indices(0) =~= Seq::<usize>::empty());
        indices(0).lemma_filter_len(strong);
        indices(0).lemma_filter_len(weak);
    } else {
        let top = n as usize;
        let less = indices((n - 1) as nat);
        assert(indices(n) =~= less.push(top));
        less.lemma_filter_push(top, strong);
        less.lemma_filter_push(top, weak);
        lemma_filter_shorter((n - 1) as nat, weak, strong, witness);
    }
}

/// Covering columns of which one was uncovered leaves fewer uncovered columns.
pub proof fn lemma_measure_decreases(m: GridModel, columns: Seq<usize>, c: usize)
    requires
        m.num_columns <= usize::MAX,
        m.is_column(c),
        !m.covered.contains(c),
        columns.contains(c),
    ensures
        measure(cover_all(m, columns)) < measure(m),
{
    let after = cover_all(m, columns);
    let weak = |x: usize| !m.covered.contains(x);
    let strong = |x: usize| !after.covered.contains(x);
    assert forall|x: usize| #[trigger] strong(x) implies weak(x) by {
        if m.covered.contains(x) {
            let i = choose|i: int| 0 <= i < m.covered.len() && m.covered[i] == x;
            assert(after.covered[i] == x);
        }
    }
    let k = choose|k: int| 0 <= k < columns.len() && columns[k] == c;
    assert(after.covered[m.covered.len() + k] == c);
    lemma_filter_shorter(m.num_columns, weak, strong, c);
}

/// The first step of a list decides whether its first solution comes from it.
pub proof fn lemma_solutions_in_step(steps: Seq<Step>)
    requires
        steps.len() > 0,
    ensures
        steps[0] is None ==> solutions_in(steps) == solutions_in(steps.skip(1)),
        steps[0] is Some ==> solutions_in(steps).len() > 0 && solutions_in(steps)[0]
            == steps[0]->Some_0 && solutions_in(steps).skip(1) == solutions_in(steps.skip(1)),
{
    if steps[0] is Some {
        let first = steps[0]->Some_0;
        assert((seq![first] + solutions_in(steps.skip(1))).skip(1) =~= solutions_in(steps.skip(1)));
    }
}

/// The best of a list of distinct columns is one of them, no other has
/// fewer live rows, and every one before it has more.
pub proof fn lemma_best_of(m: GridModel, columns: Seq<usize>)
    requires
        columns.len() > 0,
        columns.no_duplicates(),
    ensures
        columns.contains(best_of(m, columns)),
        forall|i: int|
            0 <= i < columns.len() ==> m.live_rows(best_of(m, columns)).len() <= m.live_rows(
                #[trigger] columns[i],
            ).len(),
        forall|i: int, j: int|
            0 <= i < j < columns.len() && #[trigger] columns[j] == best_of(m, columns)
                ==> m.live_rows(best_of(m, columns)).len() < m.live_rows(#[trigger] columns[i]).len(),
    decreases columns.len(),
{
    let best = best_of(m, columns);
    if columns.len() == 1 {
        assert(columns[0] == best);
    } else {
        let front = columns.drop_last();
        let before = best_of(m, front);
        assert(front.no_duplicates()) by {
            assert forall|i: int, j: int|
                0 <= i < front.len() && 0 <= j < front.len() && i != j implies front[i]
                != front[j] by {
                assert(columns[i] != columns[j]);
            }
        }
        lemma_best_of(m, front);
        let k = choose|k: int| 0 <= k < front.len() && front[k] == before;
        assert(columns[k] == before);
        assert(columns[columns.len() - 1] == columns.last());
        assert forall|i: int| 0 <= i < columns.len() implies m.live_rows(best).len() <= m.live_rows(
            #[trigger] columns[i],
        ).len() by {
            if i < front.len() {
                assert(front[i] == columns[i]);
            }
        }
        assert forall|i: int, j: int|
            0 <= i < j < columns.len() && #[trigger] columns[j] == best implies m.live_rows(
            best,
        ).len() < m.live_rows(#[trigger] columns[i]).len() by {
            assert(front[i] == columns[i]);
            if j < front.len() {
                assert(front[j] == columns[j]);
                assert(columns[j] != columns[columns.len() - 1]);
            } else {
                assert(m.live_rows(before).len() <= m.live_rows(front[i]).len());
            }
        }
    }
}

/// Row `rows[i]` has a one in column `c`.
pub open spec fn hit(ones: Set<(usize, usize)>, rows: Seq<usize>, i: int, c: usize) -> bool {
    ones.contains((rows[i], c))
}

/// One of `rows` has a one in column `c`.
pub open spec fn covers(ones: Set<(usize, usize)>, rows: Seq<usize>, c: usize) -> bool {
    exists|i: int| 0 <= i < rows.len() && #[trigger] hit(ones, rows, i, c)
}

/// No two of `rows` have a one in the same column.
pub open spec fn disjoint(ones: Set<(usize, usize)>, rows: Seq<usize>) -> bool {
    forall|i: int, j: int, c: usize|
        0 <= i < rows.len() && 0 <= j < rows.len() && i != j && #[trigger] hit(ones, rows, i, c)
            ==> !#[trigger] hit(ones, rows, j, c)
}

/// The rows `rows` are an exact cover: they are distinct, every mandatory
/// column has a one in exactly one of them, and every optional column in at
/// most one.
pub open spec fn is_exact_cover(m: GridModel, optional: Set<usize>, rows: Seq<usize>) -> bool {
    &&& rows.no_duplicates()
    &&& disjoint(m.ones, rows)
    &&& forall|c: usize|
        m.is_column(c) && !optional.contains(c) ==> #[trigger] covers(m.ones, rows, c)
}

/// The ones of the model lie inside the matrix.
pub open spec fn model_ok(m: GridModel) -> bool {
    &&& m.num_columns <= usize::MAX
    &&& m.num_rows <= usize::MAX
    &&& forall|r: usize, c: usize| #[trigger]
        m.ones.contains((r, c)) ==> 1 <= r <= m.num_rows && m.is_column(c)
}

/// The rows are rows of the matrix.
pub open spec fn rows_in_range(m: GridModel, rows: Seq<usize>) -> bool {
    forall|i: int| 0 <= i < rows.len() ==> 1 <= #[trigger] rows[i] <= m.num_rows
}

/// The state of the search after the rows `chosen` have been selected: they
/// share no column, and the covered columns are those in which one of
/// them has a one.
pub open spec fn search_state(m: GridModel, chosen: Seq<usize>) -> bool {
    &&& model_ok(m)
    &&& rows_in_range(m, chosen)
    &&& chosen.no_duplicates()
    &&& disjoint(m.ones, chosen)
    &&& forall|c: usize|
        m.is_column(c) ==> (m.covered.contains(c) <==> #[trigger] covers(m.ones, chosen, c))
}

/// A column of the best of a list is in the list.
pub proof fn lemma_best_of_contains(m: GridModel, columns: Seq<usize>)
    requires
        columns.len() > 0,
    ensures
        columns.contains(best_of(m, columns)),
    decreases columns.len(),
{
    if columns.len() == 1 {
        assert(columns[0] == best_of(m, columns));
    } else {
        let front = columns.drop_last();
        lemma_best_of_contains(m, front);
        let k = choose|k: int| 0 <= k < front.len() && front[k] == best_of(m, front);
        assert(columns[k] == best_of(m, front));
        assert(columns[columns.len() - 1] == columns.last());
    }
}

/// A column is open exactly if it is a mandatory uncovered column.
pub proof fn lemma_open_columns(m: GridModel, optional: Set<usize>, c: usize)
    requires
        m.num_columns <= usize::MAX,
    ensures
        open_columns(m, optional).contains(c) <==> (m.is_column(c) && !m.covered.contains(c)
            && !optional.contains(c)),
{
    let uncovered = m.uncovered_columns();
    let mandatory = |c: usize| !optional.contains(c);
    lemma_filter_indices(m.num_columns, |c: usize| !m.covered.contains(c));
    if open_columns(m, optional).contains(c) {
        uncovered.lemma_filter_contains_rev(mandatory, c);
        let open = open_columns(m, optional);
        let k = choose|k: int| 0 <= k < open.len() && open[k] == c;
        uncovered.lemma_filter_pred(mandatory, k);
        assert(uncovered.contains(c));
    }
    if m.is_column(c) && !m.covered.contains(c) && !optional.contains(c) {
        assert(uncovered.contains(c));
        let k = choose|k: int| 0 <= k < uncovered.len() && uncovered[k] == c;
        assert(mandatory(uncovered[k]));
        uncovered.lemma_filter_contains(mandatory, k);
    }
}

/// The entries of an ascending list that meet a condition are ascending.
pub proof fn lemma_filter_ascending(s: Seq<usize>, pred: spec_fn(usize) -> bool)
    requires
        strictly_ascending(s),
    ensures
        strictly_ascending(s.filter(pred)),
    decreases s.len(),
{
    if s.len() == 0 {
        s.lemma_filter_len(pred);
    } else {
        let front = s.drop_last();
        assert(s =~= front.push(s.last()));
        front.lemma_filter_push(s.last(), pred);
        lemma_filter_ascending(front, pred);
        let kept = front.filter(pred);
        let all = s.filter(pred);
        assert forall|i: int, j: int| 0 <= i < j < all.len() implies #[trigger] all[i]
            < #[trigger] all[j] by {
            if j < kept.len() {
                assert(kept[i] < kept[j]);
            } else {
                assert(kept.contains(kept[i]));
                front.lemma_filter_contains_rev(pred, kept[i]);
                let k = choose|k: int| 0 <= k < front.len() && front[k] == kept[i];
                assert(s[k] < s[s.len() - 1]);
            }
        }
    }
}

/// The column that the search branches on has the fewest live rows of all
/// mandatory uncovered columns, and every such column before it has more.
pub proof fn lemma_pick_is_first_smallest(m: GridModel, optional: Set<usize>, c: usize)
    requires
        m.num_columns <= usize::MAX,
        m.is_column(c),
        !m.covered.contains(c),
        !optional.contains(c),
    ensures
        m.live_rows(pick(m, optional)).len() <= m.live_rows(c).len(),
        c < pick(m, optional) ==> m.live_rows(pick(m, optional)).len() < m.live_rows(c).len(),
{
    let open = open_columns(m, optional);
    lemma_open_columns(m, optional, c);
    lemma_filter_indices(m.num_columns, |x: usize| !m.covered.contains(x));
    lemma_filter_ascending(m.uncovered_columns(), |x: usize| !optional.contains(x));
    assert(open.no_duplicates()) by {
        assert forall|i: int, j: int| 0 <= i < open.len() && 0 <= j < open.len() && i
            != j implies open[i] != open[j] by {
            if i < j {
                assert(open[i] < open[j]);
            } else {
                assert(open[j] < open[i]);
            }
        }
    }
    lemma_best_of(m, open);
    let i = choose|i: int| 0 <= i < open.len() && open[i] == c;
    let j = choose|j: int| 0 <= j < open.len() && open[j] == pick(m, optional);
    assert(m.live_rows(pick(m, optional)).len() <= m.live_rows(open[i]).len());
    if c < pick(m, optional) {
        if j < i {
            assert(open[j] < open[i]);
        }
        assert(i < j);
    }
}

/// In a state that is not solved, the column that the search branches on
/// is a mandatory uncovered column.
pub proof fn lemma_pick(m: GridModel, optional: Set<usize>)
    requires
        m.num_columns <= usize::MAX,
        !solved(m, optional),
    ensures
        m.is_column(pick(m, optional)),
        !m.covered.contains(pick(m, optional)),
        !optional.contains(pick(m, optional)),
{
    lemma_best_of_contains(m, open_columns(m, optional));
    lemma_open_columns(m, optional, pick(m, optional));
}

/// A live row of an uncovered column shares no column with the rows
/// selected so far, and selecting it leads to a state of the search with
/// fewer uncovered columns.
pub proof fn lemma_select(m: GridModel, chosen: Seq<usize>, c: usize, k: int)
    requires
        search_state(m, chosen),
        m.is_column(c),
        !m.covered.contains(c),
        0 <= k < m.live_rows(c).len(),
    ensures
        search_state(
            cover_all(m, m.row_columns(m.live_rows(c)[k])),
            chosen.push(m.live_rows(c)[k]),
        ),
        measure(cover_all(m, m.row_columns(m.live_rows(c)[k]))) < measure(m),
        !chosen.contains(m.live_rows(c)[k]),
        m.ones.contains((m.live_rows(c)[k], c)),
{
    let row = m.live_rows(c)[k];
    let columns = m.row_columns(row);
    let after = cover_all(m, columns);
    let longer = chosen.push(row);
    lemma_filter_indices(m.num_rows, |r: usize| m.ones.contains((r, c)) && m.row_live(r));
    assert(m.live_rows(c).contains(row));
    lemma_filter_indices(
        m.num_columns,
        |x: usize| m.ones.contains((row, x)) && !m.covered.contains(x),
    );
    assert(columns.contains(c));
    lemma_measure_decreases(m, columns, c);
    // The row is none of those selected so far.
    assert(!chosen.contains(row)) by {
        if chosen.contains(row) {
            let i = choose|i: int| 0 <= i < chosen.len() && chosen[i] == row;
            assert(hit(m.ones, chosen, i, c));
            assert(covers(m.ones, chosen, c));
        }
    }
    assert(longer.no_duplicates()) by {
        assert forall|i: int, j: int|
            0 <= i < longer.len() && 0 <= j < longer.len() && i != j implies longer[i]
            != longer[j] by {
            if i < chosen.len() && j < chosen.len() {
                assert(chosen[i] != chosen[j]);
            } else if i < chosen.len() {
                assert(chosen.contains(chosen[i]));
            } else {
                assert(chosen.contains(chosen[j]));
            }
        }
    }
    // It shares no column with them.
    assert forall|i: int, x: usize| 0 <= i < chosen.len() && #[trigger] hit(
        m.ones,
        chosen,
        i,
        x,
    ) implies !m.ones.contains((row, x)) by {
        assert(m.is_column(x));
        assert(covers(m.ones, chosen, x));
        assert(m.covered.contains(x));
    }
    assert(disjoint(after.ones, longer)) by {
        assert forall|i: int, j: int, x: usize|
            0 <= i < longer.len() && 0 <= j < longer.len() && i != j && #[trigger] hit(
                after.ones,
                longer,
                i,
                x,
            ) implies !#[trigger] hit(after.ones, longer, j, x) by {
            if i < chosen.len() && j < chosen.len() {
                assert(hit(m.ones, chosen, i, x));
                assert(!hit(m.ones, chosen, j, x));
            } else if i < chosen.len() {
                assert(hit(m.ones, chosen, i, x));
            } else {
                if hit(after.ones, longer, j, x) {
                    assert(hit(m.ones, chosen, j, x));
                }
            }
        }
    }
    assert forall|x: usize| after.is_column(x) implies (after.covered.contains(x)
        <==> #[trigger] covers(after.ones, longer, x)) by {
        assert(m.covered.contains(x) <==> covers(m.ones, chosen, x));
        if after.covered.contains(x) {
            let i = choose|i: int| 0 <= i < after.covered.len() && after.covered[i] == x;
            if i < m.covered.len() {
                assert(m.covered[i] == x);
                let j = choose|j: int| 0 <= j < chosen.len() && #[trigger] hit(m.ones, chosen, j, x);
                assert(hit(after.ones, longer, j, x));
            } else {
                assert(columns[i - m.covered.len()] == x);
                assert(columns.contains(x));
                assert(hit(after.ones, longer, chosen.len() as int, x));
            }
        }
        if covers(after.ones, longer, x) {
            let j = choose|j: int| 0 <= j < longer.len() && #[trigger] hit(after.ones, longer, j, x);
            if j < chosen.len() {
                assert(hit(m.ones, chosen, j, x));
                assert(covers(m.ones, chosen, x));
                let i = choose|i: int| 0 <= i < m.covered.len() && m.covered[i] == x;
                assert(after.covered[i] == x);
            } else {
                assert(m.ones.contains((row, x)));
                if m.covered.contains(x) {
                    let i = choose|i: int| 0 <= i < m.covered.len() && m.covered[i] == x;
                    assert(after.covered[i] == x);
                } else {
                    assert(columns.contains(x));
                    let i = choose|i: int| 0 <= i < columns.len() && columns[i] == x;
                    assert(after.covered[m.covered.len() + i] == x);
                }
            }
        }
    }
}

/// The rows selected in a solved state are an exact cover.
pub proof fn lemma_solved_is_cover(m: GridModel, optional: Set<usize>, chosen: Seq<usize>)
    requires
        search_state(m, chosen),
        solved(m, optional),
    ensures
        is_exact_cover(m, optional, chosen),
{
    assert forall|c: usize| m.is_column(c) && !optional.contains(c) implies #[trigger] covers(
        m.ones,
        chosen,
        c,
    ) by {
        lemma_open_columns(m, optional, c);
        if !m.covered.contains(c) {
            assert(open_columns(m, optional).contains(c));
        }
    }
}

/// Every solution that the steps from `rows[from]` on complete is an
/// exact cover.
pub proof fn lemma_try_rows_sound(
    m: GridModel,
    optional: Set<usize>,
    chosen: Seq<usize>,
    c: usize,
    from: nat,
    k: int,
)
    requires
        search_state(m, chosen),
        m.is_column(c),
        !m.covered.contains(c),
        0 <= k < try_rows(m, optional, chosen, m.live_rows(c), from).len(),
        try_rows(m, optional, chosen, m.live_rows(c), from)[k] is Some,
    ensures
        is_exact_cover(
            GridModel { covered: Seq::empty(), ..m },
            optional,
            try_rows(m, optional, chosen, m.live_rows(c), from)[k]->Some_0,
        ),
        rows_in_range(m, try_rows(m, optional, chosen, m.live_rows(c), from)[k]->Some_0),
    decreases measure(m), m.live_rows(c).len() - from,
{
    let rows = m.live_rows(c);
    let row = rows[from as int];
    let first = select_row(m, optional, chosen, row);
    let rest = try_rows(m, optional, chosen, rows, from + 1);
    let below = cover_all(m, m.row_columns(row));
    let longer = chosen.push(row);
    assert(from < rows.len());
    lemma_select(m, chosen, c, from as int);
    if k < first.len() {
        if solved(below, optional) {
            lemma_solved_is_cover(below, optional, longer);
        } else {
            lemma_pick(below, optional);
            lemma_try_rows_sound(below, optional, longer, pick(below, optional), 0, k - 1);
        }
    } else {
        assert(k > first.len());
        lemma_try_rows_sound(m, optional, chosen, c, from + 1, k - first.len() - 1);
    }
}

/// Every solution among the solutions of the steps is the outcome of
/// one of the steps.
pub proof fn lemma_solutions_in_member(steps: Seq<Step>, j: int)
    requires
        0 <= j < solutions_in(steps).len(),
    ensures
        exists|k: int| 0 <= k < steps.len() && #[trigger] steps[k] == Some(solutions_in(steps)[j]),
    decreases steps.len(),
{
    let rest = steps.skip(1);
    if steps[0] is Some && j == 0 {
        assert(steps[0] == Some(solutions_in(steps)[0]));
    } else {
        let shifted = if steps[0] is Some { j - 1 } else { j };
        lemma_solutions_in_member(rest, shifted);
        let k = choose|k: int| 0 <= k < rest.len() && #[trigger] rest[k] == Some(
            solutions_in(rest)[shifted],
        );
        assert(steps[k + 1] == rest[k]);
    }
}

/// All of `rows` are rows of `cover`.
pub open spec fn within(rows: Seq<usize>, cover: Seq<usize>) -> bool {
    forall|i: int| 0 <= i < rows.len() ==> cover.contains(#[trigger] rows[i])
}

/// The solution that one of the steps completes is among the solutions of
/// the steps.
pub proof fn lemma_solutions_in_found(steps: Seq<Step>, k: int)
    requires
        0 <= k < steps.len(),
        steps[k] is Some,
    ensures
        exists|j: int|
            0 <= j < solutions_in(steps).len() && steps[k] == Some(#[trigger] solutions_in(steps)[j]),
    decreases k,
{
    let rest = steps.skip(1);
    if k == 0 {
        assert(steps[0] == Some(solutions_in(steps)[0]));
    } else {
        assert(rest[k - 1] == steps[k]);
        lemma_solutions_in_found(rest, k - 1);
        let j = choose|j: int|
            0 <= j < solutions_in(rest).len() && rest[k - 1] == Some(
                #[trigger] solutions_in(rest)[j],
            );
        if steps[0] is Some {
            assert(solutions_in(steps)[j + 1] == solutions_in(rest)[j]);
        } else {
            assert(solutions_in(steps)[j] == solutions_in(rest)[j]);
        }
    }
}

/// Every solution that the search finds is an exact cover.
pub proof fn lemma_solutions_sound(m: GridModel, optional: Set<usize>, j: int)
    requires
        model_ok(m),
        m.covered.len() == 0,
        0 <= j < solutions(m, optional).len(),
    ensures
        is_exact_cover(m, optional, solutions(m, optional)[j]),
        rows_in_range(m, solutions(m, optional)[j]),
{
    let steps = run(m, optional);
    lemma_solutions_in_member(steps, j);
    let k = choose|k: int| 0 <= k < steps.len() && #[trigger] steps[k] == Some(
        solutions_in(steps)[j],
    );
    let none = Seq::<usize>::empty();
    assert(search_state(m, none)) by {
        assert forall|c: usize| m.is_column(c) implies (m.covered.contains(c) <==> #[trigger] covers(
            m.ones,
            none,
            c,
        )) by {}
    }
    lemma_pick(m, optional);
    lemma_try_rows_sound(m, optional, none, pick(m, optional), 0, k);
    assert(m.covered =~= Seq::<usize>::empty());
}

/// The step completes a solution all of whose rows are rows of `cover`.
pub open spec fn found_in(step: Step, cover: Seq<usize>) -> bool {
    step matches Some(rows) && forall|i: int| 0 <= i < rows.len() ==> cover.contains(
        #[trigger] rows[i],
    )
}

/// If an exact cover holds the rows selected so far and the row of it that
/// has a one in column `c` is among the candidates from `from` on, the
/// steps from there on complete a solution.
pub proof fn lemma_try_rows_complete(
    m: GridModel,
    optional: Set<usize>,
    chosen: Seq<usize>,
    c: usize,
    from: nat,
    cover: Seq<usize>,
    at: int,
)
    requires
        search_state(m, chosen),
        is_exact_cover(m, optional, cover),
        forall|i: int| 0 <= i < chosen.len() ==> cover.contains(#[trigger] chosen[i]),
        m.is_column(c),
        !m.covered.contains(c),
        from <= at < m.live_rows(c).len(),
        cover.contains(m.live_rows(c)[at]),
    ensures
        exists|k: int|
            0 <= k < try_rows(m, optional, chosen, m.live_rows(c), from).len() && found_in(
                #[trigger] try_rows(m, optional, chosen, m.live_rows(c), from)[k],
                cover,
            ),
    decreases measure(m), m.live_rows(c).len() - from,
{
    let rows = m.live_rows(c);
    let row = rows[from as int];
    let first = select_row(m, optional, chosen, row);
    let rest = try_rows(m, optional, chosen, rows, from + 1);
    let steps = try_rows(m, optional, chosen, rows, from);
    let below = cover_all(m, m.row_columns(row));
    let longer = chosen.push(row);
    lemma_select(m, chosen, c, from as int);
    if from == at {
        assert forall|i: int| 0 <= i < longer.len() implies cover.contains(#[trigger] longer[i]) by {
            if i < chosen.len() {
                assert(longer[i] == chosen[i]);
            }
        }
        if solved(below, optional) {
            assert(found_in(steps[0], cover));
        } else {
            lemma_pick(below, optional);
            let next = pick(below, optional);
            assert(below.ones == m.ones);
            lemma_cover_row_is_live(below, optional, longer, next, cover);
            let other = choose|other: int|
                0 <= other < below.live_rows(next).len() && cover.contains(
                    #[trigger] below.live_rows(next)[other],
                );
            lemma_try_rows_complete(below, optional, longer, next, 0, cover, other);
            let inner = try_rows(below, optional, longer, below.live_rows(next), 0);
            let k = choose|k: int| 0 <= k < inner.len() && found_in(#[trigger] inner[k], cover);
            assert(steps[k + 1] == inner[k]);
        }
    } else {
        lemma_try_rows_complete(m, optional, chosen, c, from + 1, cover, at);
        let k = choose|k: int| 0 <= k < rest.len() && found_in(#[trigger] rest[k], cover);
        assert(steps[first.len() + 1 + k] == rest[k]);
    }
}

/// The row of an exact cover that has a one in a mandatory uncovered
/// column is a live row of that column, if the cover holds the rows
/// selected so far.
pub proof fn lemma_cover_row_is_live(
    m: GridModel,
    optional: Set<usize>,
    chosen: Seq<usize>,
    c: usize,
    cover: Seq<usize>,
)
    requires
        search_state(m, chosen),
        is_exact_cover(m, optional, cover),
        forall|i: int| 0 <= i < chosen.len() ==> cover.contains(#[trigger] chosen[i]),
        m.is_column(c),
        !m.covered.contains(c),
        !optional.contains(c),
    ensures
        exists|at: int|
            0 <= at < m.live_rows(c).len() && cover.contains(#[trigger] m.live_rows(c)[at]),
{
    assert(covers(m.ones, cover, c));
    let t = choose|t: int| 0 <= t < cover.len() && #[trigger] hit(m.ones, cover, t, c);
    let row = cover[t];
    assert(m.row_live(row)) by {
        assert forall|x: usize| m.covered.contains(x) implies !m.ones.contains((row, x)) by {
            if m.ones.contains((row, x)) {
                assert(m.is_column(x));
                assert(covers(m.ones, chosen, x));
                let i = choose|i: int| 0 <= i < chosen.len() && #[trigger] hit(m.ones, chosen, i, x);
                assert(cover.contains(chosen[i]));
                let u = choose|u: int| 0 <= u < cover.len() && cover[u] == chosen[i];
                if u == t {
                    assert(hit(m.ones, chosen, i, c));
                    assert(covers(m.ones, chosen, c));
                } else {
                    assert(hit(m.ones, cover, t, x));
                    assert(hit(m.ones, cover, u, x));
                }
            }
        }
    }
    lemma_filter_indices(m.num_rows, |r: usize| m.ones.contains((r, c)) && m.row_live(r));
    assert(m.live_rows(c).contains(row));
    let at = choose|at: int| 0 <= at < m.live_rows(c).len() && m.live_rows(c)[at] == row;
    assert(cover.contains(m.live_rows(c)[at]));
}

/// If the matrix has a mandatory column, the search finds, for every exact
/// cover, a solution all of whose rows are rows of that cover.
pub proof fn lemma_solutions_complete(m: GridModel, optional: Set<usize>, cover: Seq<usize>)
    requires
        model_ok(m),
        m.covered.len() == 0,
        is_exact_cover(m, optional, cover),
        !solved(m, optional),
    ensures
        exists|j: int|
            0 <= j < solutions(m, optional).len() && within(
                #[trigger] solutions(m, optional)[j],
                cover,
            ),
{
    let none = Seq::<usize>::empty();
    assert(search_state(m, none)) by {
        assert forall|c: usize| m.is_column(c) implies (m.covered.contains(c) <==> #[trigger] covers(
            m.ones,
            none,
            c,
        )) by {}
    }
    lemma_pick(m, optional);
    let c = pick(m, optional);
    lemma_cover_row_is_live(m, optional, none, c, cover);
    let at = choose|at: int|
        0 <= at < m.live_rows(c).len() && cover.contains(#[trigger] m.live_rows(c)[at]);
    lemma_try_rows_complete(m, optional, none, c, 0, cover, at);
    let steps = run(m, optional);
    let k = choose|k: int| 0 <= k < steps.len() && found_in(#[trigger] steps[k], cover);
    lemma_solutions_in_found(steps, k);
    let j = choose|j: int|
        0 <= j < solutions_in(steps).len() && steps[k] == Some(#[trigger] solutions_in(steps)[j]);
    let rows = steps[k]->Some_0;
    assert(rows == solutions(m, optional)[j]);
    assert forall|i: int| 0 <= i < rows.len() implies cover.contains(#[trigger] rows[i]) by {}
    assert(within(solutions(m, optional)[j], cover));
}

} // verus!
