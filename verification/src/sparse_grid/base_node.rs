//! Link records of the toroidal matrix and walks along their rings.
//!
//! Every header and node owns one `BaseNode`, stored in an arena and
//! addressed by its index. The four links of a record are arena indices.

use vstd::prelude::*;

verus! {

/// The four links of one arena entry.
#[derive(Clone, Copy, Debug, PartialEq, Eq, Hash)]
pub struct BaseNode {
    pub left: usize,
    pub right: usize,
    pub up: usize,
    pub down: usize,
}

/// One of the four directions in which a link points.
#[derive(Clone, Copy, Debug, PartialEq, Eq, Hash)]
pub enum Direction {
    Up,
    Down,
    Left,
    Right,
}

impl Direction {
    /// The opposite direction.
    pub open spec fn spec_back(self) -> Direction {
        match self {
            Direction::Up => Direction::Down,
            Direction::Down => Direction::Up,
            Direction::Left => Direction::Right,
            Direction::Right => Direction::Left,
        }
    }

    /// The opposite direction.
    #[verifier::when_used_as_spec(spec_back)]
    pub fn back(self) -> (d: Direction)
        ensures
            d == self.spec_back(),
    {
        match self {
            Direction::Up => Direction::Down,
            Direction::Down => Direction::Up,
            Direction::Left => Direction::Right,
            Direction::Right => Direction::Left,
        }
    }
}

impl BaseNode {
    /// A record whose four links all point at index 0.
    pub fn new() -> (node: Self)
        ensures
            node == (BaseNode { left: 0, right: 0, up: 0, down: 0 }),
    {
        BaseNode { left: 0, right: 0, up: 0, down: 0 }
    }

    /// Points all four links at `index`, the record's own place in the arena.
    pub fn set_self_ptr(&mut self, index: usize)
        ensures
            *final(self) == (BaseNode { left: index, right: index, up: index, down: index }),
    {
        self.left = index;
        self.right = index;
        self.up = index;
        self.down = index;
    }

    /// The link that points in direction `dir`.
    pub open spec fn spec_link(self, dir: Direction) -> usize {
        match dir {
            Direction::Up => self.up,
            Direction::Down => self.down,
            Direction::Left => self.left,
            Direction::Right => self.right,
        }
    }

    /// The link that points in direction `dir`.
    #[verifier::when_used_as_spec(spec_link)]
    pub fn link(self, dir: Direction) -> (next: usize)
        ensures
            next == self.spec_link(dir),
    {
        match dir {
            Direction::Up => self.up,
            Direction::Down => self.down,
            Direction::Left => self.left,
            Direction::Right => self.right,
        }
    }

    /// This record with the link in direction `dir` replaced by `target`.
    pub open spec fn spec_with_link(self, dir: Direction, target: usize) -> BaseNode {
        match dir {
            Direction::Up => BaseNode { up: target, ..self },
            Direction::Down => BaseNode { down: target, ..self },
            Direction::Left => BaseNode { left: target, ..self },
            Direction::Right => BaseNode { right: target, ..self },
        }
    }

    /// This record with the link in direction `dir` replaced by `target`.
    #[verifier::when_used_as_spec(spec_with_link)]
    pub fn with_link(self, dir: Direction, target: usize) -> (node: BaseNode)
        ensures
            node == self.spec_with_link(dir, target),
    {
        match dir {
            Direction::Up => BaseNode { up: target, ..self },
            Direction::Down => BaseNode { down: target, ..self },
            Direction::Left => BaseNode { left: target, ..self },
            Direction::Right => BaseNode { right: target, ..self },
        }
    }
}

/// The entries met when following `dir` from `cur`, before `start` is
/// reached or `fuel` steps are spent.
pub open spec fn walk_from(
    links: Seq<BaseNode>,
    dir: Direction,
    start: usize,
    cur: usize,
    fuel: nat,
) -> Seq<usize>
    decreases fuel,
{
    if fuel == 0 || cur >= links.len() {
        Seq::empty()
    } else {
        let next = links[cur as int].link(dir);
        if next == start {
            Seq::empty()
        } else {
            seq![next] + walk_from(links, dir, start, next, (fuel - 1) as nat)
        }
    }
}

/// Following `dir` from `cur` reaches `start` within `fuel` steps, without
/// leaving the arena.
pub open spec fn returns_home(
    links: Seq<BaseNode>,
    dir: Direction,
    start: usize,
    cur: usize,
    fuel: nat,
) -> bool
    decreases fuel,
{
    &&& fuel > 0
    &&& cur < links.len()
    &&& {
        let next = links[cur as int].link(dir);
        next == start || returns_home(links, dir, start, next, (fuel - 1) as nat)
    }
}

/// The walk from `start` in direction `dir` comes back to `start`.
pub open spec fn is_closed(links: Seq<BaseNode>, dir: Direction, start: usize) -> bool {
    returns_home(links, dir, start, start, links.len())
}

/// The entries of the ring through `start`, in the order in which
/// direction `dir` meets them, without `start` itself.
pub open spec fn walk(links: Seq<BaseNode>, dir: Direction, start: usize) -> Seq<usize> {
    walk_from(links, dir, start, start, links.len())
}

/// The entries of `s` other than `skip`.
pub open spec fn without(s: Seq<usize>, skip: Option<usize>) -> Seq<usize> {
    s.filter(|x: usize| skip != Some(x))
}

/// Collects the ring through `start` in direction `dir`, leaving out
/// `start` and `skip`.
pub fn walk_ring(links: &Vec<BaseNode>, start: usize, skip: Option<usize>, dir: Direction) -> (out:
    Vec<usize>)
    requires
        is_closed(links@, dir, start),
    ensures
        out@ == without(walk(links@, dir, start), skip),
{
    let mut out: Vec<usize> = Vec::new();
    let mut cur: usize = start;
    let ghost mut fuel: nat = links@.len();
    let ghost pred = |x: usize| skip != Some(x);
    proof {
        assert(Seq::<usize>::empty() + walk(links@, dir, start) =~= walk(links@, dir, start));
    }
    loop
        invariant
            returns_home(links@, dir, start, cur, fuel),
            pred == |x: usize| skip != Some(x),
            out@ + without(walk_from(links@, dir, start, cur, fuel), skip) == without(
                walk(links@, dir, start),
                skip,
            ),
        ensures
            out@ == without(walk(links@, dir, start), skip),
        decreases fuel,
    {
        let next = links[cur].link(dir);
        if next == start {
            proof {
                assert(walk_from(links@, dir, start, cur, fuel) =~= Seq::<usize>::empty());
                assert(Seq::<usize>::empty().filter(pred) =~= Seq::<usize>::empty());
                assert(out@ + Seq::<usize>::empty() =~= out@);
            }
            break ;
        }
        proof {
            let rest = walk_from(links@, dir, start, next, (fuel - 1) as nat);
            assert(walk_from(links@, dir, start, cur, fuel) == seq![next] + rest);
            Seq::filter_distributes_over_add(seq![next], rest, pred);
            assert(seq![next] =~= Seq::<usize>::empty().push(next));
            Seq::<usize>::empty().lemma_filter_push(next, pred);
            assert(Seq::<usize>::empty().filter(pred) =~= Seq::<usize>::empty());
            if pred(next) {
                assert(seq![next].filter(pred) =~= seq![next]);
                assert(out@.push(next) + rest.filter(pred) =~= out@ + (seq![next] + rest).filter(
                    pred,
                ));
            } else {
                assert(seq![next].filter(pred) =~= Seq::<usize>::empty());
                assert(out@ + rest.filter(pred) =~= out@ + (seq![next] + rest).filter(pred));
            }
            fuel = (fuel - 1) as nat;
        }
        if skip != Some(next) {
            out.push(next);
        }
        cur = next;
    }
    out
}

/// The entries above `start` in its ring, nearest first.
pub fn up(links: &Vec<BaseNode>, start: usize, skip: Option<usize>) -> (out: Vec<usize>)
    requires
        is_closed(links@, Direction::Up, start),
    ensures
        out@ == without(walk(links@, Direction::Up, start), skip),
{
    walk_ring(links, start, skip, Direction::Up)
}

/// The entries below `start` in its ring, nearest first.
pub fn down(links: &Vec<BaseNode>, start: usize, skip: Option<usize>) -> (out: Vec<usize>)
    requires
        is_closed(links@, Direction::Down, start),
    ensures
        out@ == without(walk(links@, Direction::Down, start), skip),
{
    walk_ring(links, start, skip, Direction::Down)
}

/// The entries to the left of `start` in its ring, nearest first.
pub fn left(links: &Vec<BaseNode>, start: usize, skip: Option<usize>) -> (out: Vec<usize>)
    requires
        is_closed(links@, Direction::Left, start),
    ensures
        out@ == without(walk(links@, Direction::Left, start), skip),
{
    walk_ring(links, start, skip, Direction::Left)
}

/// The entries to the right of `start` in its ring, nearest first.
pub fn right(links: &Vec<BaseNode>, start: usize, skip: Option<usize>) -> (out: Vec<usize>)
    requires
        is_closed(links@, Direction::Right, start),
    ensures
        out@ == without(walk(links@, Direction::Right, start), skip),
{
    walk_ring(links, start, skip, Direction::Right)
}

/// The arena after `index` has been taken out of its ring along `dir`: the
/// neighbours of `index` point at each other, `index` keeps its own links.
pub open spec fn splice_out(links: Seq<BaseNode>, dir: Direction, index: usize) -> Seq<BaseNode> {
    let prev = links[index as int].link(dir.back());
    let next = links[index as int].link(dir);
    let first = links.update(prev as int, links[prev as int].with_link(dir, next));
    first.update(next as int, first[next as int].with_link(dir.back(), prev))
}

/// The arena after `index` has been put back between the two entries that
/// its own links name.
pub open spec fn splice_in(links: Seq<BaseNode>, dir: Direction, index: usize) -> Seq<BaseNode> {
    let prev = links[index as int].link(dir.back());
    let next = links[index as int].link(dir);
    let first = links.update(prev as int, links[prev as int].with_link(dir, index));
    first.update(next as int, first[next as int].with_link(dir.back(), index))
}

/// The arena after `from` and `to` have been made neighbours along `dir`.
pub open spec fn attached(links: Seq<BaseNode>, dir: Direction, from: usize, to: usize) -> Seq<
    BaseNode,
> {
    let first = links.update(from as int, links[from as int].with_link(dir, to));
    first.update(to as int, first[to as int].with_link(dir.back(), from))
}

/// Makes `to` the neighbour of `from` in direction `dir`, and `from` the
/// neighbour of `to` in the opposite direction.
pub fn attach(links: &mut Vec<BaseNode>, dir: Direction, from: usize, to: usize)
    requires
        from < old(links)@.len(),
        to < old(links)@.len(),
    ensures
        final(links)@ == attached(old(links)@, dir, from, to),
{
    let from_node = links[from].with_link(dir, to);
    links.set(from, from_node);
    let to_node = links[to].with_link(dir.back(), from);
    links.set(to, to_node);
}

/// Takes `index` out of its ring along `dir`.
pub fn unlink(links: &mut Vec<BaseNode>, dir: Direction, index: usize)
    requires
        index < old(links)@.len(),
        old(links)@[index as int].link(dir) < old(links)@.len(),
        old(links)@[index as int].link(dir.back()) < old(links)@.len(),
    ensures
        final(links)@ == splice_out(old(links)@, dir, index),
{
    let node = links[index];
    let prev = node.link(dir.back());
    let next = node.link(dir);
    let prev_node = links[prev].with_link(dir, next);
    links.set(prev, prev_node);
    let next_node = links[next].with_link(dir.back(), prev);
    links.set(next, next_node);
}

/// Puts `index` back between the two entries that its own links name.
pub fn relink(links: &mut Vec<BaseNode>, dir: Direction, index: usize)
    requires
        index < old(links)@.len(),
        old(links)@[index as int].link(dir) < old(links)@.len(),
        old(links)@[index as int].link(dir.back()) < old(links)@.len(),
    ensures
        final(links)@ == splice_in(old(links)@, dir, index),
{
    let node = links[index];
    let prev = node.link(dir.back());
    let next = node.link(dir);
    let prev_node = links[prev].with_link(dir, index);
    links.set(prev, prev_node);
    let next_node = links[next].with_link(dir.back(), index);
    links.set(next, next_node);
}

impl BaseNode {
    /// Takes `index` out of its row ring.
    pub fn cover_horizontal(links: &mut Vec<BaseNode>, index: usize)
        requires
            index < old(links)@.len(),
            old(links)@[index as int].right < old(links)@.len(),
            old(links)@[index as int].left < old(links)@.len(),
        ensures
            final(links)@ == splice_out(old(links)@, Direction::Right, index),
    {
        unlink(links, Direction::Right, index)
    }

    /// Takes `index` out of its column ring.
    pub fn cover_vertical(links: &mut Vec<BaseNode>, index: usize)
        requires
            index < old(links)@.len(),
            old(links)@[index as int].down < old(links)@.len(),
            old(links)@[index as int].up < old(links)@.len(),
        ensures
            final(links)@ == splice_out(old(links)@, Direction::Down, index),
    {
        unlink(links, Direction::Down, index)
    }

    /// Puts `index` back into its row ring.
    pub fn uncover_horizontal(links: &mut Vec<BaseNode>, index: usize)
        requires
            index < old(links)@.len(),
            old(links)@[index as int].right < old(links)@.len(),
            old(links)@[index as int].left < old(links)@.len(),
        ensures
            final(links)@ == splice_in(old(links)@, Direction::Right, index),
    {
        relink(links, Direction::Right, index)
    }

    /// Puts `index` back into its column ring.
    pub fn uncover_vertical(links: &mut Vec<BaseNode>, index: usize)
        requires
            index < old(links)@.len(),
            old(links)@[index as int].down < old(links)@.len(),
            old(links)@[index as int].up < old(links)@.len(),
        ensures
            final(links)@ == splice_in(old(links)@, Direction::Down, index),
    {
        relink(links, Direction::Down, index)
    }

    /// Makes `below` the lower neighbour of `index`.
    pub fn add_below(links: &mut Vec<BaseNode>, index: usize, below: usize)
        requires
            index < old(links)@.len(),
            below < old(links)@.len(),
        ensures
            final(links)@ == attached(old(links)@, Direction::Down, index, below),
    {
        attach(links, Direction::Down, index, below)
    }

    /// Makes `above` the upper neighbour of `index`.
    pub fn add_above(links: &mut Vec<BaseNode>, index: usize, above: usize)
        requires
            index < old(links)@.len(),
            above < old(links)@.len(),
        ensures
            final(links)@ == attached(old(links)@, Direction::Up, index, above),
    {
        attach(links, Direction::Up, index, above)
    }

    /// Makes `neighbor` the right neighbour of `index`.
    pub fn add_right(links: &mut Vec<BaseNode>, index: usize, neighbor: usize)
        requires
            index < old(links)@.len(),
            neighbor < old(links)@.len(),
        ensures
            final(links)@ == attached(old(links)@, Direction::Right, index, neighbor),
    {
        attach(links, Direction::Right, index, neighbor)
    }

    /// Makes `neighbor` the left neighbour of `index`.
    pub fn add_left(links: &mut Vec<BaseNode>, index: usize, neighbor: usize)
        requires
            index < old(links)@.len(),
            neighbor < old(links)@.len(),
        ensures
            final(links)@ == attached(old(links)@, Direction::Left, index, neighbor),
    {
        attach(links, Direction::Left, index, neighbor)
    }
}

} // verus!
