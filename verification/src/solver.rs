//! Algorithm X as a state machine over search frames, so that solutions can
//! be asked for one at a time.

use crate::grid::{
    initial_model, lemma_filter_indices, lemma_max_row, lemma_max_row_below, Grid, GridModel,
};
use crate::search::{
    cover_all, covers, explore, hit, is_exact_cover, lemma_measure_decreases,
    lemma_open_columns, lemma_solutions_complete, lemma_solutions_in_step,
    lemma_solutions_sound, model_ok, open_columns, pick, run, select_row, solutions,
    solutions_in, solved, try_rows, within, Step,
};
use crate::sparse_grid::SparseGrid;
use crate::ExactCover;
use std::collections::VecDeque;
use vstd::prelude::*;

verus! {

/// The coordinates of the ones of row `i + 1` in the first `upto` columns.
pub open spec fn incidence_row<E: ExactCover>(problem: &E, i: int, upto: int) -> Seq<(usize, usize)>
    decreases upto,
{
    if upto <= 0 {
        Seq::empty()
    } else {
        let before = incidence_row(problem, i, upto - 1);
        if problem.spec_satisfies(
            &problem.spec_possibilities()[i],
            &problem.spec_constraints()[upto - 1],
        ) {
            before.push(((i + 1) as usize, upto as usize))
        } else {
            before
        }
    }
}

/// The coordinates of the ones of the first `rows` rows of the incidence
/// matrix, row by row: possibility `i` is row `i + 1`, constraint `j` is
/// column `j + 1`.
pub open spec fn incidence<E: ExactCover>(problem: &E, rows: int) -> Seq<(usize, usize)>
    decreases rows,
{
    if rows <= 0 {
        Seq::empty()
    } else {
        incidence(problem, rows - 1) + incidence_row(
            problem,
            rows - 1,
            problem.spec_constraints().len() as int,
        )
    }
}

/// The columns of the optional constraints.
pub open spec fn optional_columns<E: ExactCover>(problem: &E) -> Set<usize> {
    Set::new(
        |c: usize|
            1 <= c <= problem.spec_constraints().len() && problem.spec_is_optional(
                &problem.spec_constraints()[c - 1],
            ),
    )
}

/// The incidence matrix of a problem, with nothing covered.
pub open spec fn problem_model<E: ExactCover>(problem: &E) -> GridModel {
    initial_model(
        problem.spec_constraints().len() as usize,
        incidence(problem, problem.spec_possibilities().len() as int),
    )
}

/// The solutions of a problem in the order in which the search finds them,
/// each as the rows selected, first to last. Row `r` stands for the
/// possibility at index `r - 1`.
pub open spec fn problem_solutions<E: ExactCover>(problem: &E) -> Seq<Seq<usize>> {
    solutions(problem_model(problem), optional_columns(problem))
}

/// The arena of the grid of a problem can be indexed.
pub open spec fn problem_fits<E: ExactCover>(problem: &E) -> bool {
    (problem.spec_possibilities().len() + 1) * (problem.spec_constraints().len() + 1)
        <= usize::MAX
}

/// Whether the arena of the grid of a problem can be indexed.
pub fn fits<E: ExactCover>(problem: &E) -> (yes: bool)
    ensures
        yes == problem_fits(problem),
{
    let height = problem.possibilities().len();
    let width = problem.constraints().len();
    if height == usize::MAX || width == usize::MAX {
        proof {
            assert((height + 1) * (width + 1) > usize::MAX) by (nonlinear_arith)
                requires
                    height == usize::MAX || width == usize::MAX,
                    height >= 0,
                    width >= 0,
            ;
        }
        return false;
    }
    match (height + 1).checked_mul(width + 1) {
        Some(_) => true,
        None => false,
    }
}

/// The grid backend `G` has room for the incidence matrix of the problem.
pub open spec fn grid_fits<E: ExactCover, G: Grid>(problem: &E) -> bool {
    G::can_hold(
        problem.spec_constraints().len() as usize,
        incidence(problem, problem.spec_possibilities().len() as int),
    )
}

/// What a frame does next.
pub enum FrameState {
    /// Select the first candidate and cover its columns.
    Cover,
    /// Take the first candidate back and drop it.
    Uncover,
}

/// One level of the search.
pub struct Frame {
    min_column: usize,
    selected_rows: VecDeque<(usize, Vec<usize>)>,
    state: FrameState,
    covered: Ghost<Seq<usize>>,
    base: Ghost<Seq<usize>>,
    rows: Ghost<Seq<usize>>,
    from: Ghost<nat>,
}

impl Frame {
    /// The grid model in which the frame chose its candidates.
    pub closed spec fn model(&self, start: GridModel) -> GridModel {
        GridModel { covered: self.covered@, ..start }
    }

    /// The first candidate's row, and its columns.
    pub closed spec fn front(&self) -> (usize, Seq<usize>) {
        (self.rows@[self.from@ as int], self.selected_rows@[0].1@)
    }

    /// The queue holds the candidates that are left, each with the columns
    /// to cover when it is selected.
    pub closed spec fn candidate_ok(&self, start: GridModel, i: int) -> bool {
        &&& self.selected_rows@[i].0 == self.rows@[self.from@ + i]
        &&& self.selected_rows@[i].1@ == self.model(start).row_columns(self.rows@[self.from@ + i])
    }

    /// The candidates are the live rows of the frame's column, and those
    /// from `from` on are left in the queue.
    pub closed spec fn ok(&self, start: GridModel) -> bool {
        let m = self.model(start);
        &&& self.from@ < self.rows@.len()
        &&& self.selected_rows@.len() == self.rows@.len() - self.from@
        &&& forall|i: int|
            0 <= i < self.selected_rows@.len() ==> #[trigger] self.candidate_ok(start, i)
        &&& m.is_column(self.min_column)
        &&& !self.covered@.contains(self.min_column)
        &&& self.rows@ == m.live_rows(self.min_column)
        &&& forall|i: int| 0 <= i < self.base@.len() ==> 1 <= #[trigger] self.base@[i] <= start.num_rows
    }

    /// The steps that the frame still takes by itself.
    pub closed spec fn steps(&self, start: GridModel, optional: Set<usize>) -> Seq<Step> {
        match self.state {
            FrameState::Cover => try_rows(
                self.model(start),
                optional,
                self.base@,
                self.rows@,
                self.from@,
            ),
            FrameState::Uncover => seq![None] + try_rows(
                self.model(start),
                optional,
                self.base@,
                self.rows@,
                self.from@ + 1,
            ),
        }
    }
}

/// The steps that the frames still take, the top frame first.
pub closed spec fn pending_steps(start: GridModel, optional: Set<usize>, frames: Seq<Frame>) -> Seq<
    Step,
>
    decreases frames.len(),
{
    if frames.len() == 0 {
        Seq::empty()
    } else {
        frames.last().steps(start, optional) + pending_steps(start, optional, frames.drop_last())
    }
}

/// Frame `k` starts from nothing if it is the lowest; a frame below the top
/// has selected its first candidate, and the frame above it starts from there.
pub closed spec fn link_ok(frames: Seq<Frame>, k: int) -> bool {
    &&& k == 0 ==> frames[k].covered@ == Seq::<usize>::empty() && frames[k].base@ == Seq::<
        usize,
    >::empty()
    &&& k + 1 < frames.len() ==> {
        &&& frames[k].state is Uncover
        &&& frames[k + 1].covered@ == frames[k].covered@ + frames[k].front().1
        &&& frames[k + 1].base@ == frames[k].base@.push(frames[k].front().0)
    }
}

/// The indices `partial` name the possibilities of the rows `chosen`.
pub open spec fn names(partial: Seq<usize>, chosen: Seq<usize>) -> bool {
    &&& partial.len() == chosen.len()
    &&& forall|i: int| 0 <= i < partial.len() ==> #[trigger] partial[i] + 1 == chosen[i]
}

/// The grid and the partial solution are where the top frame left them.
pub closed spec fn top_ok(covered: Seq<usize>, partial: Seq<usize>, frames: Seq<Frame>) -> bool {
    if frames.len() == 0 {
        covered == Seq::<usize>::empty() && partial == Seq::<usize>::empty()
    } else {
        let top = frames.last();
        match top.state {
            FrameState::Cover => covered == top.covered@ && names(partial, top.base@),
            FrameState::Uncover => covered == top.covered@ + top.front().1 && names(
                partial,
                top.base@.push(top.front().0),
            ),
        }
    }
}

/// The possibilities `chosen` are those that the rows `rows` stand for, in
/// the same order.
pub open spec fn shows<E: ExactCover>(
    chosen: Seq<&E::Possibility>,
    problem: &E,
    rows: Seq<usize>,
) -> bool {
    &&& chosen.len() == rows.len()
    &&& forall|i: int|
        0 <= i < chosen.len() ==> 1 <= #[trigger] rows[i] <= problem.spec_possibilities().len()
            && *chosen[i] == problem.spec_possibilities()[rows[i] - 1]
}

/// Solver that returns the solutions of an exact cover problem one by one.
pub struct Solver<'e, E: ExactCover, G: Grid = SparseGrid> {
    problem: &'e E,
    grid: G,
    partial_solution: Vec<usize>,
    stack: Vec<Frame>,
    found: Ghost<nat>,
}

impl<'e, E: ExactCover, G: Grid> Solver<'e, E, G> {
    /// The problem that is being solved.
    pub closed spec fn problem(&self) -> &'e E {
        self.problem
    }

    /// The number of solutions returned since the solver was made or reset.
    pub closed spec fn found(&self) -> nat {
        self.found@
    }

    /// The solutions that have not been returned yet, in the order in which
    /// they will be.
    pub open spec fn remaining(&self) -> Seq<Seq<usize>> {
        problem_solutions(self.problem()).skip(self.found() as int)
    }

    /// The steps that the search still takes.
    pub closed spec fn steps(&self) -> Seq<Step> {
        pending_steps(problem_model(self.problem), optional_columns(self.problem), self.stack@)
    }

    /// The grid and the frames fit together.
    pub closed spec fn frames_ok(&self) -> bool {
        let start = problem_model(self.problem);
        &&& problem_fits(self.problem)
        &&& grid_fits::<E, G>(self.problem)
        &&& self.grid.wf()
        &&& self.grid.model() == (GridModel { covered: self.grid.model().covered, ..start })
        &&& forall|k: int| 0 <= k < self.stack@.len() ==> (#[trigger] self.stack@[k]).ok(start)
        &&& forall|k: int| 0 <= k < self.stack@.len() ==> #[trigger] link_ok(self.stack@, k)
        &&& top_ok(self.grid.model().covered, self.partial_solution@, self.stack@)
    }

    /// The solver's invariant: the grid and the frames fit together, and the
    /// solutions still to come are those of the problem after the ones found.
    pub closed spec fn wf(&self) -> bool {
        &&& self.frames_ok()
        &&& self.found@ <= problem_solutions(self.problem).len()
        &&& solutions_in(self.steps()) == problem_solutions(self.problem).skip(self.found@ as int)
    }
}

/// The problem has a constraint that is not optional.
pub open spec fn has_mandatory<E: ExactCover>(problem: &E) -> bool {
    exists|j: int|
        0 <= j < problem.spec_constraints().len() && !problem.spec_is_optional(
            #[trigger] &problem.spec_constraints()[j],
        )
}

/// The possibility of row `rows[i]` satisfies the constraint at index `j`.
pub open spec fn satisfied_by<E: ExactCover>(problem: &E, rows: Seq<usize>, i: int, j: int) -> bool {
    problem.spec_satisfies(
        &problem.spec_possibilities()[rows[i] - 1],
        &problem.spec_constraints()[j],
    )
}

/// The possibilities of the rows `rows` solve the problem: they are
/// distinct possibilities, every mandatory constraint is satisfied by
/// exactly one of them, and every optional constraint by at most one.
pub open spec fn is_solution<E: ExactCover>(problem: &E, rows: Seq<usize>) -> bool {
    &&& rows.no_duplicates()
    &&& forall|i: int|
        0 <= i < rows.len() ==> 1 <= #[trigger] rows[i] <= problem.spec_possibilities().len()
    &&& forall|j: int|
        0 <= j < problem.spec_constraints().len() && !problem.spec_is_optional(
            #[trigger] &problem.spec_constraints()[j],
        ) ==> exists|i: int| 0 <= i < rows.len() && #[trigger] satisfied_by(problem, rows, i, j)
    &&& forall|i: int, k: int, j: int|
        0 <= i < rows.len() && 0 <= k < rows.len() && i != k && 0 <= j
            < problem.spec_constraints().len() && #[trigger] satisfied_by(problem, rows, i, j)
            ==> !#[trigger] satisfied_by(problem, rows, k, j)
}

/// The ones of one row of the incidence matrix are the constraints that
/// the possibility of the row satisfies.
pub proof fn lemma_incidence_row_ones<E: ExactCover>(
    problem: &E,
    i: int,
    upto: int,
    r: usize,
    c: usize,
)
    requires
        0 <= i < usize::MAX,
        0 <= upto <= usize::MAX,
    ensures
        incidence_row(problem, i, upto).contains((r, c)) <==> (r == i + 1 && 1 <= c <= upto
            && problem.spec_satisfies(
            &problem.spec_possibilities()[i],
            &problem.spec_constraints()[c - 1],
        )),
    decreases upto,
{
    if upto > 0 {
        lemma_incidence_row_ones(problem, i, upto - 1, r, c);
        let before = incidence_row(problem, i, upto - 1);
        let now = incidence_row(problem, i, upto);
        let pair = ((i + 1) as usize, upto as usize);
        if now.contains((r, c)) {
            let k = choose|k: int| 0 <= k < now.len() && now[k] == (r, c);
            if k < before.len() {
                assert(before[k] == (r, c));
            }
        }
        if before.contains((r, c)) {
            let k = choose|k: int| 0 <= k < before.len() && before[k] == (r, c);
            assert(now[k] == (r, c));
        }
        if problem.spec_satisfies(
            &problem.spec_possibilities()[i],
            &problem.spec_constraints()[upto - 1],
        ) {
            assert(now[before.len() as int] == pair);
        }
    }
}

/// The ones of the first rows of the incidence matrix are the pairs of a
/// possibility and a constraint that it satisfies.
pub proof fn lemma_incidence_ones<E: ExactCover>(problem: &E, rows: int, r: usize, c: usize)
    requires
        0 <= rows <= problem.spec_possibilities().len(),
        problem.spec_possibilities().len() < usize::MAX,
        problem.spec_constraints().len() <= usize::MAX,
    ensures
        incidence(problem, rows).contains((r, c)) <==> (1 <= r <= rows && 1 <= c
            <= problem.spec_constraints().len() && problem.spec_satisfies(
            &problem.spec_possibilities()[r - 1],
            &problem.spec_constraints()[c - 1],
        )),
    decreases rows,
{
    if rows > 0 {
        let width = problem.spec_constraints().len() as int;
        lemma_incidence_ones(problem, rows - 1, r, c);
        lemma_incidence_row_ones(problem, rows - 1, width, r, c);
        let before = incidence(problem, rows - 1);
        let row = incidence_row(problem, rows - 1, width);
        let now = incidence(problem, rows);
        if now.contains((r, c)) {
            let k = choose|k: int| 0 <= k < now.len() && now[k] == (r, c);
            if k < before.len() {
                assert(before[k] == (r, c));
            } else {
                assert(row[k - before.len()] == (r, c));
            }
        }
        if before.contains((r, c)) {
            let k = choose|k: int| 0 <= k < before.len() && before[k] == (r, c);
            assert(now[k] == (r, c));
        }
        if row.contains((r, c)) {
            let k = choose|k: int| 0 <= k < row.len() && row[k] == (r, c);
            assert(now[before.len() + k] == (r, c));
        }
    }
}

/// The model of a problem has its ones where a possibility satisfies a
/// constraint, and nowhere else.
pub proof fn lemma_problem_model<E: ExactCover>(problem: &E)
    requires
        problem_fits(problem),
    ensures
        model_ok(problem_model(problem)),
        problem_model(problem).covered.len() == 0,
        problem_model(problem).num_columns == problem.spec_constraints().len(),
        problem_model(problem).num_rows <= problem.spec_possibilities().len(),
        forall|r: usize, c: usize| #[trigger]
            problem_model(problem).ones.contains((r, c)) <==> (1 <= r
                <= problem.spec_possibilities().len() && 1 <= c <= problem.spec_constraints().len()
                && problem.spec_satisfies(
                &problem.spec_possibilities()[r - 1],
                &problem.spec_constraints()[c - 1],
            )),
{
    let height = problem.spec_possibilities().len() as int;
    let width = problem.spec_constraints().len() as int;
    assert(height + 1 <= usize::MAX && width + 1 <= usize::MAX) by (nonlinear_arith)
        requires
            (height + 1) * (width + 1) <= usize::MAX,
            height >= 0,
            width >= 0,
    ;
    let coordinates = incidence(problem, height);
    let m = problem_model(problem);
    lemma_incidence_bounds(problem, height);
    lemma_max_row_below(coordinates, (height + 1) as usize);
    assert forall|r: usize, c: usize| #[trigger]
        m.ones.contains((r, c)) <==> (1 <= r <= height && 1 <= c <= width && problem.spec_satisfies(
            &problem.spec_possibilities()[r - 1],
            &problem.spec_constraints()[c - 1],
        )) by {
        lemma_incidence_ones(problem, height, r, c);
    }
    assert forall|r: usize, c: usize| #[trigger] m.ones.contains((r, c)) implies 1 <= r
        <= m.num_rows && m.is_column(c) by {
        let k = choose|k: int| 0 <= k < coordinates.len() && coordinates[k] == (r, c);
        lemma_max_row(coordinates, k);
    }
}

/// The rows of an exact cover of the model of a problem solve the problem,
/// and the other way round.
pub proof fn lemma_cover_is_solution<E: ExactCover>(problem: &E, rows: Seq<usize>)
    requires
        problem_fits(problem),
        forall|i: int|
            0 <= i < rows.len() ==> 1 <= #[trigger] rows[i] <= problem.spec_possibilities().len(),
    ensures
        is_solution(problem, rows) <==> is_exact_cover(
            problem_model(problem),
            optional_columns(problem),
            rows,
        ),
{
    let m = problem_model(problem);
    let optional = optional_columns(problem);
    let width = problem.spec_constraints().len() as int;
    lemma_problem_model(problem);
    assert forall|i: int, c: usize|
        0 <= i < rows.len() && 1 <= c <= width implies (#[trigger] hit(m.ones, rows, i, c)
        <==> satisfied_by(problem, rows, i, c - 1)) by {}
    if is_solution(problem, rows) {
        assert forall|i: int, k: int, c: usize|
            0 <= i < rows.len() && 0 <= k < rows.len() && i != k && #[trigger] hit(
                m.ones,
                rows,
                i,
                c,
            ) implies !#[trigger] hit(m.ones, rows, k, c) by {
            assert(m.is_column(c));
            assert(satisfied_by(problem, rows, i, c - 1));
            assert(!satisfied_by(problem, rows, k, c - 1));
        }
        assert forall|c: usize| m.is_column(c) && !optional.contains(c) implies #[trigger] covers(
            m.ones,
            rows,
            c,
        ) by {
            let j = c - 1;
            assert(!problem.spec_is_optional(&problem.spec_constraints()[j]));
            let i = choose|i: int| 0 <= i < rows.len() && #[trigger] satisfied_by(
                problem,
                rows,
                i,
                j,
            );
            assert(hit(m.ones, rows, i, c));
        }
    }
    if is_exact_cover(m, optional, rows) {
        assert forall|j: int|
            0 <= j < width && !problem.spec_is_optional(
                #[trigger] &problem.spec_constraints()[j],
            ) implies exists|i: int|
            0 <= i < rows.len() && #[trigger] satisfied_by(problem, rows, i, j) by {
            let c = (j + 1) as usize;
            assert(covers(m.ones, rows, c));
            let i = choose|i: int| 0 <= i < rows.len() && #[trigger] hit(m.ones, rows, i, c);
            assert(satisfied_by(problem, rows, i, c - 1));
        }
        assert forall|i: int, k: int, j: int|
            0 <= i < rows.len() && 0 <= k < rows.len() && i != k && 0 <= j < width
                && #[trigger] satisfied_by(problem, rows, i, j) implies !#[trigger] satisfied_by(
            problem,
            rows,
            k,
            j,
        ) by {
            let c = (j + 1) as usize;
            assert(hit(m.ones, rows, i, c));
            assert(!hit(m.ones, rows, k, c));
        }
    }
}

/// Every solution that the solver returns solves the problem: every
/// mandatory constraint is satisfied by exactly one of its possibilities,
/// every optional constraint by at most one.
pub proof fn lemma_found_is_solution<E: ExactCover>(problem: &E, k: int)
    requires
        problem_fits(problem),
        0 <= k < problem_solutions(problem).len(),
    ensures
        is_solution(problem, problem_solutions(problem)[k]),
{
    lemma_problem_model(problem);
    lemma_solutions_sound(problem_model(problem), optional_columns(problem), k);
    lemma_cover_is_solution(problem, problem_solutions(problem)[k]);
}

/// Whatever choice of possibilities solves a problem with a mandatory
/// constraint, the solver returns a solution made of possibilities of
/// that choice.
pub proof fn lemma_every_solution_is_found<E: ExactCover>(problem: &E, rows: Seq<usize>)
    requires
        problem_fits(problem),
        has_mandatory(problem),
        is_solution(problem, rows),
    ensures
        exists|k: int|
            0 <= k < problem_solutions(problem).len() && within(
                #[trigger] problem_solutions(problem)[k],
                rows,
            ),
{
    let m = problem_model(problem);
    let optional = optional_columns(problem);
    let j = choose|j: int|
        0 <= j < problem.spec_constraints().len() && !problem.spec_is_optional(
            #[trigger] &problem.spec_constraints()[j],
        );
    lemma_problem_model(problem);
    lemma_cover_is_solution(problem, rows);
    let c = (j + 1) as usize;
    lemma_open_columns(m, optional, c);
    assert(open_columns(m, optional).contains(c));
    lemma_solutions_complete(m, optional, rows);
    let k = choose|k: int|
        0 <= k < solutions(m, optional).len() && within(#[trigger] solutions(m, optional)[k], rows);
    assert(within(problem_solutions(problem)[k], rows));
}

/// If the solver of a problem with a mandatory constraint has no solution
/// to return, no choice of possibilities solves the problem.
pub proof fn lemma_none_means_unsolvable<E: ExactCover>(problem: &E, rows: Seq<usize>)
    requires
        problem_fits(problem),
        has_mandatory(problem),
        problem_solutions(problem).len() == 0,
    ensures
        !is_solution(problem, rows),
{
    if is_solution(problem, rows) {
        lemma_every_solution_is_found(problem, rows);
    }
}

/// Both grid backends have room for every problem whose arena can be
/// indexed.
pub proof fn lemma_grids_fit<E: ExactCover>(problem: &E)
    requires
        problem_fits(problem),
    ensures
        grid_fits::<E, crate::dense_grid::DenseGrid>(problem),
        grid_fits::<E, SparseGrid>(problem),
{
    let height = problem.spec_possibilities().len() as int;
    let width = problem.spec_constraints().len() as int;
    lemma_problem_model(problem);
    let rows = problem_model(problem).num_rows as int;
    assert(rows * width <= usize::MAX) by (nonlinear_arith)
        requires
            0 <= rows <= height,
            0 <= width,
            (height + 1) * (width + 1) <= usize::MAX,
    ;
}

/// The steps of a stack with one more frame on top start with that frame's.
pub proof fn lemma_pending_push(
    start: GridModel,
    optional: Set<usize>,
    frames: Seq<Frame>,
    top: Frame,
)
    ensures
        pending_steps(start, optional, frames.push(top)) == top.steps(start, optional)
            + pending_steps(start, optional, frames),
{
    assert(frames.push(top).drop_last() =~= frames);
}

/// The columns to cover for a live row of an uncovered column are distinct
/// uncovered columns, and that column is one of them.
pub proof fn lemma_candidate(m: GridModel, column: usize, i: int)
    requires
        m.num_columns <= usize::MAX,
        m.num_rows <= usize::MAX,
        m.is_column(column),
        !m.covered.contains(column),
        0 <= i < m.live_rows(column).len(),
    ensures
        1 <= m.live_rows(column)[i] <= m.num_rows,
        m.ones.contains((m.live_rows(column)[i], column)),
        m.row_live(m.live_rows(column)[i]),
        m.row_columns(m.live_rows(column)[i]).contains(column),
        crate::grid::strictly_ascending(m.row_columns(m.live_rows(column)[i])),
        forall|k: int|
            0 <= k < m.row_columns(m.live_rows(column)[i]).len() ==> {
                let c = #[trigger] m.row_columns(m.live_rows(column)[i])[k];
                m.is_column(c) && !m.covered.contains(c)
            },
{
    let rows = m.live_rows(column);
    let row = rows[i];
    lemma_filter_indices(
        m.num_rows,
        |r: usize| m.ones.contains((r, column)) && m.row_live(r),
    );
    assert(rows.contains(row));
    lemma_filter_indices(
        m.num_columns,
        |c: usize| m.ones.contains((row, c)) && !m.covered.contains(c),
    );
    let columns = m.row_columns(row);
    assert forall|k: int| 0 <= k < columns.len() implies {
        let c = #[trigger] columns[k];
        m.is_column(c) && !m.covered.contains(c)
    } by {
        assert(columns.contains(columns[k]));
    }
}

/// The ones of one row in the first `upto` columns lie in that row and in
/// those columns, and there are at most `upto` of them.
pub proof fn lemma_incidence_row_bounds<E: ExactCover>(problem: &E, i: int, upto: int)
    requires
        0 <= i < usize::MAX,
        0 <= upto <= usize::MAX,
    ensures
        incidence_row(problem, i, upto).len() <= upto,
        forall|k: int|
            0 <= k < incidence_row(problem, i, upto).len() ==> (#[trigger] incidence_row(
                problem,
                i,
                upto,
            )[k]).0 == i + 1 && 1 <= incidence_row(problem, i, upto)[k].1 <= upto,
    decreases upto,
{
    if upto > 0 {
        lemma_incidence_row_bounds(problem, i, upto - 1);
        let before = incidence_row(problem, i, upto - 1);
        let now = incidence_row(problem, i, upto);
        assert forall|k: int| 0 <= k < now.len() implies (#[trigger] now[k]).0 == i + 1 && 1
            <= now[k].1 <= upto by {
            if k < before.len() {
                assert(now[k] == before[k]);
            }
        }
    }
}

/// The ones of the first `rows` rows lie in those rows and inside the
/// matrix, and there are at most `rows` times the number of columns of them.
pub proof fn lemma_incidence_bounds<E: ExactCover>(problem: &E, rows: int)
    requires
        0 <= rows <= problem.spec_possibilities().len(),
        problem.spec_possibilities().len() < usize::MAX,
        problem.spec_constraints().len() <= usize::MAX,
    ensures
        incidence(problem, rows).len() <= rows * problem.spec_constraints().len(),
        forall|k: int|
            0 <= k < incidence(problem, rows).len() ==> 1 <= (#[trigger] incidence(
                problem,
                rows,
            )[k]).0 <= rows && 1 <= incidence(problem, rows)[k].1
                <= problem.spec_constraints().len(),
    decreases rows,
{
    let width = problem.spec_constraints().len() as int;
    if rows > 0 {
        lemma_incidence_bounds(problem, rows - 1);
        lemma_incidence_row_bounds(problem, rows - 1, width);
        assert((rows - 1) * width + width == rows * width) by (nonlinear_arith);
        let before = incidence(problem, rows - 1);
        let row = incidence_row(problem, rows - 1, width);
        let now = incidence(problem, rows);
        assert forall|k: int| 0 <= k < now.len() implies 1 <= (#[trigger] now[k]).0 <= rows && 1
            <= now[k].1 <= width by {
            if k < before.len() {
                assert(now[k] == before[k]);
            } else {
                assert(now[k] == row[k - before.len()]);
            }
        }
    } else {
        assert(0 * width == 0) by (nonlinear_arith);
    }
}

impl<'e, E: ExactCover, G: Grid> Solver<'e, E, G> {
    /// Builds the grid of the problem's incidence matrix.
    fn populate_grid(problem: &E) -> (grid: G)
        requires
            problem_fits(problem),
            grid_fits::<E, G>(problem),
        ensures
            grid.wf(),
            grid.model() == problem_model(problem),
    {
        let possibilities = problem.possibilities();
        let constraints = problem.constraints();
        let ghost height = problem.spec_possibilities().len() as int;
        let ghost width = problem.spec_constraints().len() as int;
        proof {
            assert(height + 1 <= usize::MAX && width + 1 <= usize::MAX && height * width + width + 1
                <= usize::MAX) by (nonlinear_arith)
                requires
                    (height + 1) * (width + 1) <= usize::MAX,
                    0 <= height,
                    0 <= width,
            ;
        }
        let mut coordinates: Vec<(usize, usize)> = Vec::new();
        let mut i: usize = 0;
        while i < possibilities.len()
            invariant
                possibilities@ == problem.spec_possibilities(),
                constraints@ == problem.spec_constraints(),
                height == possibilities@.len(),
                width == constraints@.len(),
                height + 1 <= usize::MAX,
                width + 1 <= usize::MAX,
                0 <= i <= height,
                coordinates@ == incidence(problem, i as int),
            decreases height - i,
        {
            let mut j: usize = 0;
            proof {
                assert(coordinates@ + incidence_row(problem, i as int, 0) =~= coordinates@);
            }
            while j < constraints.len()
                invariant
                    possibilities@ == problem.spec_possibilities(),
                    constraints@ == problem.spec_constraints(),
                    height == possibilities@.len(),
                    width == constraints@.len(),
                    height + 1 <= usize::MAX,
                    width + 1 <= usize::MAX,
                    0 <= i < height,
                    0 <= j <= width,
                    coordinates@ == incidence(problem, i as int) + incidence_row(
                        problem,
                        i as int,
                        j as int,
                    ),
                decreases width - j,
            {
                let ghost before = incidence_row(problem, i as int, j as int);
                if problem.satisfies(&possibilities[i], &constraints[j]) {
                    coordinates.push((i + 1, j + 1));
                    proof {
                        assert(incidence(problem, i as int) + before.push(
                            ((i + 1) as usize, (j + 1) as usize),
                        ) =~= (incidence(problem, i as int) + before).push(
                            ((i + 1) as usize, (j + 1) as usize),
                        ));
                    }
                }
                j += 1;
            }
            i += 1;
        }
        proof {
            lemma_incidence_bounds(problem, height);
        }
        G::new(constraints.len(), coordinates)
    }

    /// Return true if the grid represents a solution: only optional columns
    /// are left uncovered.
    fn solution_test(grid: &G, problem: &E) -> (done: bool)
        requires
            grid.wf(),
            grid.model().num_columns == problem.spec_constraints().len(),
        ensures
            done == solved(grid.model(), optional_columns(problem)),
    {
        let columns = grid.uncovered_columns();
        let constraints = problem.constraints();
        assert(constraints@.len() == constraints.len());
        let ghost m = grid.model();
        let ghost optional = optional_columns(problem);
        let ghost pred = |c: usize| !optional.contains(c);
        let mut k: usize = 0;
        proof {
            lemma_filter_indices(m.num_columns, |c: usize| !m.covered.contains(c));
            assert(columns@.take(0) =~= Seq::<usize>::empty());
            Seq::<usize>::empty().lemma_filter_len(pred);
        }
        while k < columns.len()
            invariant
                grid.wf(),
                m == grid.model(),
                m.num_columns == problem.spec_constraints().len(),
                constraints@ == problem.spec_constraints(),
                optional == optional_columns(problem),
                pred == |c: usize| !optional.contains(c),
                columns@ == m.uncovered_columns(),
                forall|x: usize| columns@.contains(x) ==> 1 <= x <= m.num_columns,
                0 <= k <= columns@.len(),
                columns@.take(k as int).filter(pred).len() == 0,
            decreases columns@.len() - k,
        {
            assert(columns@.contains(columns@[k as int]));
            let id = grid.column_id(columns[k]);
            if !problem.is_optional(&constraints[id - 1]) {
                proof {
                    columns@.lemma_filter_contains(pred, k as int);
                }
                return false;
            }
            proof {
                assert(columns@.take(k + 1) =~= columns@.take(k as int).push(columns@[k as int]));
                columns@.take(k as int).lemma_filter_push(columns@[k as int], pred);
            }
            k += 1;
        }
        proof {
            assert(columns@.take(k as int) =~= columns@);
        }
        true
    }

    /// Select the column to branch on: the first mandatory uncovered column
    /// among those with the fewest live rows.
    fn choose_column(grid: &G, problem: &E) -> (column: usize)
        requires
            grid.wf(),
            grid.model().num_columns == problem.spec_constraints().len(),
            !solved(grid.model(), optional_columns(problem)),
        ensures
            column == pick(grid.model(), optional_columns(problem)),
            grid.model().is_column(column),
            !grid.model().covered.contains(column),
            !optional_columns(problem).contains(column),
    {
        let columns = grid.uncovered_columns();
        let constraints = problem.constraints();
        assert(constraints@.len() == constraints.len());
        let ghost m = grid.model();
        let ghost optional = optional_columns(problem);
        let ghost pred = |c: usize| !optional.contains(c);
        let mut best: usize = 0;
        let mut best_size: usize = 0;
        let mut any = false;
        let mut k: usize = 0;
        proof {
            lemma_filter_indices(m.num_columns, |c: usize| !m.covered.contains(c));
            assert(columns@.take(0) =~= Seq::<usize>::empty());
            Seq::<usize>::empty().lemma_filter_len(pred);
        }
        while k < columns.len()
            invariant
                grid.wf(),
                m == grid.model(),
                m.num_columns == problem.spec_constraints().len(),
                constraints@ == problem.spec_constraints(),
                optional == optional_columns(problem),
                pred == |c: usize| !optional.contains(c),
                columns@ == m.uncovered_columns(),
                forall|x: usize|
                    columns@.contains(x) ==> 1 <= x <= m.num_columns && !m.covered.contains(x),
                0 <= k <= columns@.len(),
                any <==> columns@.take(k as int).filter(pred).len() > 0,
                any ==> best == crate::search::best_of(m, columns@.take(k as int).filter(pred))
                    && best_size == m.live_rows(best).len() && columns@.contains(best) && pred(
                    best,
                ),
            decreases columns@.len() - k,
        {
            let column = columns[k];
            assert(columns@.contains(column));
            let id = grid.column_id(column);
            let ghost seen = columns@.take(k as int).filter(pred);
            proof {
                assert(columns@.take(k + 1) =~= columns@.take(k as int).push(column));
                columns@.take(k as int).lemma_filter_push(column, pred);
            }
            if !problem.is_optional(&constraints[id - 1]) {
                let size = grid.column_size(column);
                proof {
                    assert(seen.push(column).drop_last() =~= seen);
                }
                if !any || size < best_size {
                    best = column;
                    best_size = size;
                    any = true;
                }
            }
            k += 1;
        }
        proof {
            assert(columns@.take(k as int) =~= columns@);
        }
        best
    }

    /// Takes one step of the search: the top frame selects its first
    /// candidate, or takes it back and drops it.
    fn step(&mut self) -> (emitted: Option<Vec<usize>>)
        requires
            old(self).frames_ok(),
            old(self).stack@.len() > 0,
        ensures
            final(self).frames_ok(),
            final(self).problem == old(self).problem,
            final(self).found == old(self).found,
            old(self).steps().len() > 0,
            final(self).steps() == old(self).steps().skip(1),
            match emitted {
                Some(indices) => old(self).steps()[0] is Some && names(
                    indices@,
                    old(self).steps()[0]->Some_0,
                ) && forall|i: int|
                    0 <= i < indices@.len() ==> #[trigger] indices@[i]
                        < old(self).problem.spec_possibilities().len(),
                None => old(self).steps()[0] is None,
            },
    {
        let ghost start = problem_model(self.problem);
        let ghost optional = optional_columns(self.problem);
        let ghost frames = self.stack@;
        let ghost below = frames.drop_last();
        let ghost top = frames.len() - 1;
        let possibilities = self.problem.possibilities();
        let constraints = self.problem.constraints();
        let height = possibilities.len();
        let width = constraints.len();
        proof {
            assert(frames[top].ok(start));
            assert(link_ok(frames, top));
            assert(frames =~= below.push(frames[top]));
            lemma_pending_push(start, optional, below, frames[top]);
            assert(height + 1 <= usize::MAX && width + 1 <= usize::MAX) by (nonlinear_arith)
                requires
                    (height + 1) * (width + 1) <= usize::MAX,
                    height >= 0,
                    width >= 0,
            ;
            lemma_incidence_bounds(self.problem, height as int);
            lemma_max_row_below(
                incidence(self.problem, height as int),
                (height + 1) as usize,
            );
        }
        let mut frame = self.stack.pop().unwrap();
        let ghost m = frame.model(start);
        let ghost base = frame.base@;
        let ghost rows = frame.rows@;
        let ghost from = frame.from@;
        let ghost row = rows[from as int];
        let ghost columns = m.row_columns(row);
        let ghost after = cover_all(m, columns);
        let ghost rest = pending_steps(start, optional, below);
        proof {
            assert(frame.candidate_ok(start, 0));
            lemma_candidate(m, frame.min_column, from as int);
            assert(self.stack@ == below);
            assert forall|k: int| 0 <= k < below.len() implies #[trigger] link_ok(below, k) by {
                assert(link_ok(frames, k));
            }
            assert forall|k: int| 0 <= k < below.len() implies (#[trigger] below[k]).ok(start) by {
                assert(frames[k].ok(start));
            }
        }
        match frame.state {
            FrameState::Cover => {
                let row_index = frame.selected_rows[0].0;
                self.partial_solution.push(row_index - 1);
                let count = frame.selected_rows[0].1.len();
                let mut k: usize = 0;
                proof {
                    assert(columns.take(0) =~= Seq::<usize>::empty());
                    assert(m.covered + Seq::<usize>::empty() =~= m.covered);
                }
                while k < count
                    invariant
                        self.grid.wf(),
                        self.grid.model() == cover_all(m, columns.take(k as int)),
                        count == columns.len(),
                        0 <= k <= count,
                        frame.selected_rows@.len() > 0,
                        frame.selected_rows@[0].1@ == columns,
                        crate::grid::strictly_ascending(columns),
                        forall|i: int|
                            0 <= i < columns.len() ==> m.is_column(#[trigger] columns[i])
                                && !m.covered.contains(columns[i]),
                        self.problem == old(self).problem,
                        self.found == old(self).found,
                        self.stack@ == below,
                        names(self.partial_solution@, base.push(row)),
                    decreases count - k,
                {
                    let column = frame.selected_rows[0].1[k];
                    proof {
                        let done = columns.take(k as int);
                        assert(m.is_column(columns[k as int]));
                        if (m.covered + done).contains(column) {
                            let i = choose|i: int|
                                0 <= i < (m.covered + done).len() && (m.covered + done)[i]
                                    == column;
                            if i < m.covered.len() {
                                assert(m.covered[i] == column);
                            } else {
                                assert(columns[i - m.covered.len()] < columns[k as int]);
                            }
                        }
                        assert((m.covered + done).push(column) =~= m.covered + columns.take(k + 1));
                    }
                    self.grid.cover(column);
                    k += 1;
                }
                proof {
                    assert(columns.take(k as int) =~= columns);
                    assert(try_rows(m, optional, base, rows, from) == select_row(
                        m,
                        optional,
                        base,
                        row,
                    ) + seq![None] + try_rows(m, optional, base, rows, from + 1));
                    lemma_measure_decreases(m, columns, frame.min_column);
                }
                frame.state = FrameState::Uncover;
                let ghost selected = frame;
                proof {
                    assert(selected.ok(start)) by {
                        assert forall|i: int|
                            0 <= i < selected.selected_rows@.len() implies #[trigger] selected.candidate_ok(
                            start,
                            i,
                        ) by {
                            assert(frames[top].candidate_ok(start, i));
                        }
                    }
                    assert(selected.steps(start, optional) == seq![None::<Seq<usize>>] + try_rows(
                        m,
                        optional,
                        base,
                        rows,
                        from + 1,
                    ));
                    lemma_pending_push(start, optional, below, selected);
                    assert forall|k: int| 0 <= k < below.push(selected).len() implies #[trigger] link_ok(
                        below.push(selected),
                        k,
                    ) by {
                        if k < below.len() {
                            assert(link_ok(frames, k));
                        } else {
                            assert(link_ok(frames, top));
                        }
                    }
                    assert forall|k: int| 0 <= k < below.push(selected).len() implies (
                    #[trigger] below.push(selected)[k]).ok(start) by {}
                }
                proof {
                    assert(names(self.partial_solution@, base.push(row)));
                    assert(top_ok(
                        self.grid.model().covered,
                        self.partial_solution@,
                        below.push(selected),
                    ));
                }
                if Self::solution_test(&self.grid, self.problem) {
                    let solution = self.partial_solution.clone();
                    self.stack.push(frame);
                    proof {
                        let old_steps = frames[top].steps(start, optional) + rest;
                        let new_steps = selected.steps(start, optional) + rest;
                        assert(select_row(m, optional, base, row) == seq![Some(base.push(row))]);
                        assert(old_steps.skip(1) =~= new_steps);
                        assert(solution@ =~= self.partial_solution@);
                        assert forall|i: int| 0 <= i < solution@.len() implies #[trigger] solution@[i]
                            < height by {
                            assert(solution@[i] + 1 == base.push(row)[i]);
                            if i < base.len() {
                                assert(1 <= selected.base@[i] <= start.num_rows);
                            }
                        }
                    }
                    Some(solution)
                } else {
                    let min_column = Self::choose_column(&self.grid, self.problem);
                    let selected_rows = Self::select_rows_from_column(&self.grid, min_column);
                    self.stack.push(frame);
                    proof {
                        assert(select_row(m, optional, base, row) == seq![None::<Seq<usize>>]
                            + explore(after, optional, base.push(row)));
                        assert(explore(after, optional, base.push(row)) == try_rows(
                            after,
                            optional,
                            base.push(row),
                            after.live_rows(min_column),
                            0,
                        ));
                    }
                    if selected_rows.len() > 0 {
                        let child = Frame {
                            min_column,
                            selected_rows,
                            state: FrameState::Cover,
                            covered: Ghost(after.covered),
                            base: Ghost(base.push(row)),
                            rows: Ghost(after.live_rows(min_column)),
                            from: Ghost(0),
                        };
                        proof {
                            assert(child.model(start) == after);
                            assert(child.ok(start)) by {
                                assert forall|i: int|
                                    0 <= i < child.selected_rows@.len() implies #[trigger] child.candidate_ok(
                                    start,
                                    i,
                                ) by {}
                            }
                            let grown = below.push(selected).push(child);
                            lemma_pending_push(start, optional, below.push(selected), child);
                            assert(top_ok(self.grid.model().covered, self.partial_solution@, grown));
                            let old_steps = frames[top].steps(start, optional) + rest;
                            let new_steps = child.steps(start, optional) + (selected.steps(
                                start,
                                optional,
                            ) + rest);
                            assert(old_steps.skip(1) =~= new_steps);
                            assert forall|k: int| 0 <= k < grown.len() implies #[trigger] link_ok(
                                grown,
                                k,
                            ) by {
                                if k < below.len() + 1 {
                                    assert(link_ok(below.push(selected), k));
                                }
                            }
                            assert forall|k: int| 0 <= k < grown.len() implies (#[trigger] grown[k]).ok(
                                start,
                            ) by {
                                if k < below.len() + 1 {
                                    assert(grown[k] == below.push(selected)[k]);
                                }
                            }
                        }
                        self.stack.push(child);
                    } else {
                        proof {
                            let old_steps = frames[top].steps(start, optional) + rest;
                            let new_steps = selected.steps(start, optional) + rest;
                            assert(try_rows(
                                after,
                                optional,
                                base.push(row),
                                after.live_rows(min_column),
                                0,
                            ) =~= Seq::<Step>::empty());
                            assert(old_steps.skip(1) =~= new_steps);
                        }
                    }
                    None
                }
            },
            FrameState::Uncover => {
                let entry = frame.selected_rows.pop_front().unwrap();
                let mut k: usize = entry.1.len();
                proof {
                    assert(entry.1@ == columns);
                    assert(columns.take(k as int) =~= columns);
                }
                while k > 0
                    invariant
                        self.grid.wf(),
                        self.grid.model() == cover_all(m, columns.take(k as int)),
                        entry.1@ == columns,
                        0 <= k <= columns.len(),
                        self.problem == old(self).problem,
                        self.found == old(self).found,
                        self.stack@ == below,
                        self.partial_solution@ == old(self).partial_solution@,
                    decreases k,
                {
                    k -= 1;
                    let column = entry.1[k];
                    proof {
                        let done = columns.take(k + 1);
                        assert((m.covered + done).last() == column);
                        assert((m.covered + done).drop_last() =~= m.covered + columns.take(k as int));
                    }
                    self.grid.uncover(column);
                }
                self.partial_solution.pop();
                proof {
                    assert(columns.take(0) =~= Seq::<usize>::empty());
                    assert(m.covered + Seq::<usize>::empty() =~= m.covered);
                    assert(self.grid.model().covered == m.covered);
                    assert(old(self).partial_solution@.drop_last() =~= self.partial_solution@);
                }
                if frame.selected_rows.len() > 0 {
                    frame.state = FrameState::Cover;
                    frame.from = Ghost((from + 1) as nat);
                    proof {
                        let next = frame;
                        assert(next.ok(start)) by {
                            assert forall|i: int|
                                0 <= i < next.selected_rows@.len() implies #[trigger] next.candidate_ok(
                                start,
                                i,
                            ) by {
                                assert(frames[top].candidate_ok(start, i + 1));
                            }
                        }
                        lemma_pending_push(start, optional, below, next);
                        let old_steps = frames[top].steps(start, optional) + rest;
                        let new_steps = next.steps(start, optional) + rest;
                        assert(old_steps.skip(1) =~= new_steps);
                        assert forall|k: int| 0 <= k < below.push(next).len() implies #[trigger] link_ok(
                            below.push(next),
                            k,
                        ) by {
                            if k < below.len() {
                                assert(link_ok(frames, k));
                            } else {
                                assert(link_ok(frames, top));
                            }
                        }
                        assert forall|k: int| 0 <= k < below.push(next).len() implies (
                        #[trigger] below.push(next)[k]).ok(start) by {}
                    }
                    self.stack.push(frame);
                } else {
                    proof {
                        let old_steps = frames[top].steps(start, optional) + rest;
                        assert(try_rows(m, optional, base, rows, from + 1) =~= Seq::<Step>::empty());
                        assert(old_steps.skip(1) =~= rest);
                        if below.len() > 0 {
                            assert(link_ok(frames, top - 1));
                            assert(below.last() == frames[top - 1]);
                        } else {
                            assert(self.partial_solution@ =~= Seq::<usize>::empty());
                            assert(self.grid.model().covered =~= Seq::<usize>::empty());
                        }
                        assert(top_ok(self.grid.model().covered, self.partial_solution@, below));
                    }
                }
                None
            },
        }
    }

    /// Puts the first frame on the empty stack of a solver whose grid has
    /// just been built, unless the grid is solved already or the column
    /// to branch on has no rows.
    fn first_frame(&mut self)
        requires
            problem_fits(old(self).problem),
            grid_fits::<E, G>(old(self).problem),
            old(self).grid.wf(),
            old(self).grid.model() == problem_model(old(self).problem),
            old(self).stack@.len() == 0,
            old(self).partial_solution@.len() == 0,
            old(self).found@ == 0,
        ensures
            final(self).wf(),
            final(self).problem == old(self).problem,
            final(self).found@ == 0,
    {
        let ghost start = problem_model(self.problem);
        let ghost optional = optional_columns(self.problem);
        let constraints = self.problem.constraints();
        proof {
            assert(constraints@.len() == constraints.len());
            assert(self.partial_solution@ =~= Seq::<usize>::empty());
            assert(self.stack@ =~= Seq::<Frame>::empty());
            assert(problem_solutions(self.problem).skip(0) =~= problem_solutions(self.problem));
        }
        if !Self::solution_test(&self.grid, self.problem) {
            let min_column = Self::choose_column(&self.grid, self.problem);
            let selected_rows = Self::select_rows_from_column(&self.grid, min_column);
            proof {
                assert(run(start, optional) == try_rows(
                    start,
                    optional,
                    Seq::<usize>::empty(),
                    start.live_rows(min_column),
                    0,
                ));
            }
            if selected_rows.len() > 0 {
                let frame = Frame {
                    min_column,
                    selected_rows,
                    state: FrameState::Cover,
                    covered: Ghost(Seq::empty()),
                    base: Ghost(Seq::empty()),
                    rows: Ghost(start.live_rows(min_column)),
                    from: Ghost(0),
                };
                proof {
                    assert(frame.model(start) == start);
                    assert(frame.ok(start)) by {
                        assert forall|i: int|
                            0 <= i < frame.selected_rows@.len() implies #[trigger] frame.candidate_ok(
                            start,
                            i,
                        ) by {}
                    }
                    lemma_pending_push(start, optional, Seq::<Frame>::empty(), frame);
                    let frames = Seq::<Frame>::empty().push(frame);
                    assert(frame.steps(start, optional) + Seq::<Step>::empty() =~= frame.steps(
                        start,
                        optional,
                    ));
                    assert forall|k: int| 0 <= k < frames.len() implies #[trigger] link_ok(
                        frames,
                        k,
                    ) by {}
                    assert forall|k: int| 0 <= k < frames.len() implies (#[trigger] frames[k]).ok(
                        start,
                    ) by {}
                    assert(top_ok(start.covered, self.partial_solution@, frames));
                }
                self.stack.push(frame);
            } else {
                proof {
                    assert(run(start, optional) =~= Seq::<Step>::empty());
                }
            }
        }
    }

    /// Create a solver for the given problem on the grid backend `G`.
    pub fn with_grid(problem: &'e E) -> (solver: Self)
        requires
            problem_fits(problem),
            grid_fits::<E, G>(problem),
        ensures
            solver.wf(),
            solver.problem() == problem,
            solver.found() == 0,
    {
        let grid = Self::populate_grid(problem);
        let mut solver = Self {
            problem,
            grid,
            partial_solution: Vec::new(),
            stack: Vec::new(),
            found: Ghost(0),
        };
        solver.first_frame();
        solver
    }

    /// Reset the solver to the state in which it was made: the next
    /// solution is the first one again.
    pub fn reset(&mut self)
        requires
            old(self).wf(),
        ensures
            final(self).wf(),
            final(self).problem() == old(self).problem(),
            final(self).found() == 0,
    {
        self.grid = Self::populate_grid(self.problem);
        self.partial_solution.clear();
        self.stack.clear();
        self.found = Ghost(0);
        self.first_frame();
    }

    /// Return all solutions that have not been returned yet, in order.
    pub fn all_solutions(&mut self) -> (all: Vec<Vec<&'e E::Possibility>>)
        requires
            old(self).wf(),
        ensures
            final(self).wf(),
            final(self).problem() == old(self).problem(),
            final(self).remaining().len() == 0,
            all@.len() == old(self).remaining().len(),
            forall|k: int|
                0 <= k < all@.len() ==> shows(
                    (#[trigger] all@[k])@,
                    old(self).problem(),
                    old(self).remaining()[k],
                ),
    {
        let mut all: Vec<Vec<&'e E::Possibility>> = Vec::new();
        let ghost total = problem_solutions(self.problem);
        loop
            invariant
                self.wf(),
                self.problem == old(self).problem,
                total == problem_solutions(self.problem),
                old(self).found@ <= self.found@ <= total.len(),
                all@.len() == self.found@ - old(self).found@,
                forall|k: int|
                    0 <= k < all@.len() ==> shows(
                        (#[trigger] all@[k])@,
                        self.problem,
                        total[old(self).found@ + k],
                    ),
            ensures
                self.wf(),
                self.problem == old(self).problem,
                self.found@ == total.len(),
                all@.len() == total.len() - old(self).found@,
                forall|k: int|
                    0 <= k < all@.len() ==> shows(
                        (#[trigger] all@[k])@,
                        self.problem,
                        total[old(self).found@ + k],
                    ),
            decreases total.len() - self.found@,
        {
            match self.next_solution() {
                Some(solution) => {
                    all.push(solution);
                },
                None => {
                    break ;
                },
            }
        }
        all
    }

    /// Compute up to the next solution, returning `None` if there are no more.
    pub fn next_solution(&mut self) -> (solution: Option<Vec<&'e E::Possibility>>)
        requires
            old(self).wf(),
        ensures
            final(self).wf(),
            final(self).problem() == old(self).problem(),
            match solution {
                Some(chosen) => {
                    &&& old(self).remaining().len() > 0
                    &&& final(self).found() == old(self).found() + 1
                    &&& final(self).remaining() == old(self).remaining().skip(1)
                    &&& shows(chosen@, old(self).problem(), old(self).remaining()[0])
                    &&& is_solution(old(self).problem(), old(self).remaining()[0])
                },
                None => {
                    &&& old(self).remaining().len() == 0
                    &&& final(self).found() == old(self).found()
                    &&& old(self).found() == 0 && has_mandatory(old(self).problem()) ==> forall|
                        rows: Seq<usize>,
                    | !is_solution(old(self).problem(), rows)
                },
            },
    {
        let ghost total = problem_solutions(self.problem);
        let ghost found = self.found@;
        while self.stack.len() > 0
            invariant
                self.frames_ok(),
                self.problem == old(self).problem,
                self.found == old(self).found,
                found == self.found@,
                total == problem_solutions(self.problem),
                found <= total.len(),
                solutions_in(self.steps()) == total.skip(found as int),
            decreases self.steps().len(),
        {
            let ghost before = self.steps();
            let emitted = self.step();
            proof {
                lemma_solutions_in_step(before);
            }
            match emitted {
                Some(indices) => {
                    let problem: &'e E = self.problem;
                    let possibilities = problem.possibilities();
                    let mut chosen: Vec<&'e E::Possibility> = Vec::new();
                    let mut i: usize = 0;
                    let ghost rows = before[0]->Some_0;
                    while i < indices.len()
                        invariant
                            possibilities@ == problem.spec_possibilities(),
                            names(indices@, rows),
                            forall|k: int|
                                0 <= k < indices@.len() ==> #[trigger] indices@[k]
                                    < problem.spec_possibilities().len(),
                            0 <= i <= indices@.len(),
                            chosen@.len() == i,
                            forall|k: int|
                                0 <= k < i ==> *(#[trigger] chosen@[k])
                                    == problem.spec_possibilities()[rows[k] - 1],
                        decreases indices@.len() - i,
                    {
                        chosen.push(&possibilities[indices[i]]);
                        i += 1;
                    }
                    self.found = Ghost(found + 1);
                    proof {
                        lemma_found_is_solution(self.problem, found as int);
                        assert forall|k: int| 0 <= k < chosen@.len() implies 1 <= #[trigger] rows[k]
                            <= problem.spec_possibilities().len() && *chosen@[k]
                            == problem.spec_possibilities()[rows[k] - 1] by {
                            assert(indices@[k] + 1 == rows[k]);
                        }
                        assert(total.skip(found as int)[0] == total[found as int]);
                        assert(total.skip(found as int).skip(1) =~= total.skip(found as int + 1));
                    }
                    return Some(chosen);
                },
                None => {},
            }
        }
        proof {
            assert(self.stack@ =~= Seq::<Frame>::empty());
            assert(self.steps() =~= Seq::<Step>::empty());
            assert(total.skip(found as int).len() == 0);
            if found == 0 && has_mandatory(self.problem) {
                assert forall|rows: Seq<usize>| !is_solution(self.problem, rows) by {
                    lemma_none_means_unsolvable(self.problem, rows);
                }
            }
        }
        None
    }

    /// Return the live rows of `min_column`, each with the columns to cover
    /// when it is selected.
    fn select_rows_from_column(grid: &G, min_column: usize) -> (selected: VecDeque<
        (usize, Vec<usize>),
    >)
        requires
            grid.wf(),
            grid.model().is_column(min_column),
            !grid.model().covered.contains(min_column),
        ensures
            selected@.len() == grid.model().live_rows(min_column).len(),
            forall|i: int|
                0 <= i < selected@.len() ==> (#[trigger] selected@[i]).0 == grid.model().live_rows(
                    min_column,
                )[i] && selected@[i].1@ == grid.model().row_columns(
                    grid.model().live_rows(min_column)[i],
                ),
    {
        let rows = grid.uncovered_rows_in_column(min_column);
        let mut selected: VecDeque<(usize, Vec<usize>)> = VecDeque::new();
        let mut k: usize = 0;
        while k < rows.len()
            invariant
                grid.wf(),
                rows@.len() == grid.model().live_rows(min_column).len(),
                forall|i: int|
                    0 <= i < rows@.len() ==> grid.is_row_handle(#[trigger] rows@[i]) && grid.row_of(
                        rows@[i],
                    ) == grid.model().live_rows(min_column)[i],
                0 <= k <= rows@.len(),
                selected@.len() == k,
                forall|i: int|
                    0 <= i < k ==> (#[trigger] selected@[i]).0 == grid.model().live_rows(
                        min_column,
                    )[i] && selected@[i].1@ == grid.model().row_columns(
                        grid.model().live_rows(min_column)[i],
                    ),
            decreases rows@.len() - k,
        {
            let handle = rows[k];
            let id = grid.row_id(handle);
            let columns = grid.uncovered_columns_in_row(handle);
            selected.push_back((id, columns));
            k += 1;
        }
        selected
    }
}

/// The solutions that come out when the first of `pending` is taken off
/// `count` times.
pub open spec fn drained(pending: Seq<Seq<usize>>, count: nat) -> Seq<Seq<usize>>
    decreases count,
{
    if count == 0 || pending.len() == 0 {
        Seq::empty()
    } else {
        seq![pending[0]] + drained(pending.skip(1), (count - 1) as nat)
    }
}

/// Asking for the next solution until there is none gives the solutions
/// that asking for all of them at once gives, in the same order.
pub proof fn lemma_drain_is_all(pending: Seq<Seq<usize>>)
    ensures
        drained(pending, pending.len()) == pending,
    decreases pending.len(),
{
    if pending.len() > 0 {
        lemma_drain_is_all(pending.skip(1));
        assert(seq![pending[0]] + pending.skip(1) =~= pending);
    } else {
        assert(pending =~= Seq::<Seq<usize>>::empty());
    }
}

/// A solver that has been reset has the same solutions to return, in the
/// same order, as one that has just been made for the same problem.
pub proof fn lemma_reset_is_fresh<'e, E: ExactCover, G: Grid, H: Grid>(
    reset: &Solver<'e, E, G>,
    fresh: &Solver<'e, E, H>,
)
    requires
        reset.problem() == fresh.problem(),
        reset.found() == 0,
        fresh.found() == 0,
    ensures
        reset.remaining() == fresh.remaining(),
        reset.remaining() == problem_solutions(reset.problem()),
{
    assert(problem_solutions(reset.problem()).skip(0) =~= problem_solutions(reset.problem()));
}

impl<'e, E: ExactCover> Solver<'e, E> {
    /// Create a solver for the given problem on the dancing-links grid.
    pub fn new(problem: &'e E) -> (solver: Self)
        requires
            problem_fits(problem),
        ensures
            solver.wf(),
            solver.problem() == problem,
            solver.found() == 0,
    {
        Self::with_grid(problem)
    }
}

} // verus!
