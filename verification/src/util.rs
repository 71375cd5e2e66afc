//! Enumeration of index tuples in lexicographic order.

use vstd::prelude::*;

verus! {

/// Number of integers `x` with `start <= x < limit`.
pub open spec fn span(start: usize, limit: usize) -> nat {
    if limit > start {
        (limit - start) as nat
    } else {
        0
    }
}

/// All pairs `[a, b]` with `start[i] <= x_i < limits[i]`, the last component
/// changing fastest.
pub open spec fn two_combinations(limits: Seq<usize>, start: Seq<usize>) -> Seq<Seq<usize>> {
    Seq::new(
        span(start[0], limits[0]),
        |i: int|
            Seq::new(
                span(start[1], limits[1]),
                |j: int| seq![(start[0] + i) as usize, (start[1] + j) as usize],
            ),
    ).flatten()
}

/// The triples `[start[0] + i, start[1] + j, c]` with `start[2] <= c < limits[2]`.
pub open spec fn triple_line(limits: Seq<usize>, start: Seq<usize>, i: int, j: int) -> Seq<
    Seq<usize>,
> {
    Seq::new(
        span(start[2], limits[2]),
        |k: int| seq![(start[0] + i) as usize, (start[1] + j) as usize, (start[2] + k) as usize],
    )
}

/// The triples `[start[0] + i, b, c]` with `b` and `c` inside their bounds.
pub open spec fn triple_plane(limits: Seq<usize>, start: Seq<usize>, i: int) -> Seq<Seq<usize>> {
    Seq::new(span(start[1], limits[1]), |j: int| triple_line(limits, start, i, j)).flatten()
}

/// All triples `[a, b, c]` with `start[i] <= x_i < limits[i]`, the last
/// component changing fastest.
pub open spec fn three_combinations(limits: Seq<usize>, start: Seq<usize>) -> Seq<Seq<usize>> {
    Seq::new(span(start[0], limits[0]), |i: int| triple_plane(limits, start, i)).flatten()
}

/// Every component of every triple lies between its bounds.
pub proof fn lemma_three_combinations_bounds(limits: Seq<usize>, start: Seq<usize>, k: int)
    requires
        0 <= k < three_combinations(limits, start).len(),
    ensures
        three_combinations(limits, start)[k].len() == 3,
        forall|d: int|
            0 <= d < 3 ==> start[d] <= #[trigger] three_combinations(limits, start)[k][d]
                < limits[d],
{
    let planes = Seq::new(span(start[0], limits[0]), |i: int| triple_plane(limits, start, i));
    lemma_flatten_index(planes, k);
    let (i, rest) = flatten_position(planes, k);
    let lines = Seq::new(span(start[1], limits[1]), |j: int| triple_line(limits, start, i, j));
    assert(planes[i] == lines.flatten());
    lemma_flatten_index(lines, rest);
    let (j, at) = flatten_position(lines, rest);
    assert(lines[j] == triple_line(limits, start, i, j));
}

/// The part and the place inside it at which entry `k` of a flattened list
/// of lists stands.
pub open spec fn flatten_position<A>(parts: Seq<Seq<A>>, k: int) -> (int, int)
    decreases parts.len(),
{
    if parts.len() == 0 {
        (0, 0)
    } else if k >= parts.drop_last().flatten().len() {
        (parts.len() - 1, k - parts.drop_last().flatten().len())
    } else {
        flatten_position(parts.drop_last(), k)
    }
}

/// Every entry of a flattened list of lists stands in one of the lists.
pub proof fn lemma_flatten_index<A>(parts: Seq<Seq<A>>, k: int)
    requires
        0 <= k < parts.flatten().len(),
    ensures
        0 <= flatten_position(parts, k).0 < parts.len(),
        0 <= flatten_position(parts, k).1 < parts[flatten_position(parts, k).0].len(),
        parts.flatten()[k] == parts[flatten_position(parts, k).0][flatten_position(parts, k).1],
    decreases parts.len(),
{
    if parts.len() == 0 {
        assert(parts.flatten() =~= Seq::<A>::empty());
    } else {
        let front = parts.drop_last();
        assert(parts =~= front.push(parts.last()));
        front.lemma_flatten_push(parts.last());
        if k < front.flatten().len() {
            lemma_flatten_index(front, k);
        }
    }
}

/// The views of a list of arrays.
pub open spec fn views<const N: usize>(v: Seq<[usize; N]>) -> Seq<Seq<usize>> {
    v.map_values(|a: [usize; N]| a@)
}

/// Every pair between `start` (inclusive) and `limits` (exclusive), in
/// lexicographic order.
pub fn two_combination_iter(limits: [usize; 2], start: [usize; 2]) -> (out: Vec<[usize; 2]>)
    ensures
        views(out@) == two_combinations(limits@, start@),
{
    let mut out: Vec<[usize; 2]> = Vec::new();
    let mut first: usize = start[0];
    let ghost rows = |i: int|
        Seq::new(
            span(start@[1], limits@[1]),
            |j: int| seq![(start@[0] + i) as usize, (start@[1] + j) as usize],
        );
    proof {
        assert(views(out@) =~= Seq::<Seq<Seq<usize>>>::empty().flatten());
        assert(Seq::new(0, rows) =~= Seq::<Seq<Seq<usize>>>::empty());
    }
    while first < limits[0]
        invariant
            start[0] <= first,
            first <= limits[0] || first == start[0],
            rows == |i: int|
                Seq::new(
                    span(start@[1], limits@[1]),
                    |j: int| seq![(start@[0] + i) as usize, (start@[1] + j) as usize],
                ),
            views(out@) == Seq::new((first - start[0]) as nat, rows).flatten(),
        decreases limits[0] - first,
    {
        let ghost done = Seq::new((first - start[0]) as nat, rows);
        let ghost row = rows(first - start[0]);
        let ghost before = out@;
        let mut second: usize = start[1];
        while second < limits[1]
            invariant
                start[1] <= second,
                second <= limits[1] || second == start[1],
                first < limits[0],
                start[0] <= first,
                row == rows(first - start[0]),
                rows == |i: int|
                    Seq::new(
                        span(start@[1], limits@[1]),
                        |j: int| seq![(start@[0] + i) as usize, (start@[1] + j) as usize],
                    ),
                views(out@) == views(before) + row.take(second - start[1]),
            decreases limits[1] - second,
        {
            let item: [usize; 2] = [first, second];
            proof {
                assert(item@ =~= seq![first, second]);
                assert(row[second - start[1]] == seq![first, second]);
                assert(row.take(second - start[1] + 1) =~= row.take(second - start[1]).push(
                    item@,
                ));
                assert(views(out@.push(item)) =~= views(out@).push(item@));
            }
            out.push(item);
            second += 1;
        }
        proof {
            assert(row.take(second - start[1]) =~= row);
            assert(Seq::new((first + 1 - start[0]) as nat, rows) =~= done.push(row));
            done.lemma_flatten_push(row);
        }
        first += 1;
    }
    proof {
        assert((first - start[0]) as nat == span(start@[0], limits@[0]));
    }
    out
}

/// Every triple between `start` (inclusive) and `limits` (exclusive), in
/// lexicographic order.
pub fn three_combination_iter(limits: [usize; 3], start: [usize; 3]) -> (out: Vec<[usize; 3]>)
    ensures
        views(out@) == three_combinations(limits@, start@),
{
    let mut out: Vec<[usize; 3]> = Vec::new();
    let mut first: usize = start[0];
    let ghost planes = Seq::new(
        span(start@[0], limits@[0]),
        |i: int| triple_plane(limits@, start@, i),
    );
    proof {
        assert(views(out@) =~= Seq::<Seq<Seq<usize>>>::empty().flatten());
        assert(planes.take(0) =~= Seq::<Seq<Seq<usize>>>::empty());
    }
    while first < limits[0]
        invariant
            start[0] <= first,
            first <= limits[0] || first == start[0],
            planes == Seq::new(
                span(start@[0], limits@[0]),
                |i: int| triple_plane(limits@, start@, i),
            ),
            views(out@) == planes.take(first - start[0]).flatten(),
        decreases limits[0] - first,
    {
        let ghost lines = Seq::new(
            span(start@[1], limits@[1]),
            |j: int| triple_line(limits@, start@, first - start[0], j),
        );
        let ghost before_plane = out@;
        let mut second: usize = start[1];
        proof {
            assert(lines.take(0) =~= Seq::<Seq<Seq<usize>>>::empty());
            assert(views(out@) =~= views(before_plane) + lines.take(0).flatten());
        }
        while second < limits[1]
            invariant
                start[0] <= first < limits[0],
                start[1] <= second,
                second <= limits[1] || second == start[1],
                lines == Seq::new(
                    span(start@[1], limits@[1]),
                    |j: int| triple_line(limits@, start@, first - start[0], j),
                ),
                views(out@) == views(before_plane) + lines.take(second - start[1]).flatten(),
            decreases limits[1] - second,
        {
            let ghost line = triple_line(limits@, start@, first - start[0], second - start[1]);
            let ghost before_line = out@;
            let mut third: usize = start[2];
            while third < limits[2]
                invariant
                    start[0] <= first < limits[0],
                    start[1] <= second < limits[1],
                    start[2] <= third,
                    third <= limits[2] || third == start[2],
                    line == triple_line(limits@, start@, first - start[0], second - start[1]),
                    views(out@) == views(before_line) + line.take(third - start[2]),
                decreases limits[2] - third,
            {
                let item: [usize; 3] = [first, second, third];
                proof {
                    assert(item@ =~= seq![first, second, third]);
                    assert(line[third - start[2]] == seq![first, second, third]);
                    assert(line.take(third - start[2] + 1) =~= line.take(third - start[2]).push(
                        item@,
                    ));
                    assert(views(out@.push(item)) =~= views(out@).push(item@));
                }
                out.push(item);
                third += 1;
            }
            proof {
                assert(line.take(third - start[2]) =~= line);
                let done = lines.take(second - start[1]);
                assert(lines.take(second + 1 - start[1]) =~= done.push(line));
                done.lemma_flatten_push(line);
            }
            second += 1;
        }
        proof {
            assert(lines.take(second - start[1]) =~= lines);
            let done = planes.take(first - start[0]);
            assert(planes.take(first + 1 - start[0]) =~= done.push(
                triple_plane(limits@, start@, first - start[0]),
            ));
            done.lemma_flatten_push(triple_plane(limits@, start@, first - start[0]));
        }
        first += 1;
    }
    proof {
        assert(planes.take(first - start[0]) =~= planes);
    }
    out
}

} // verus!
