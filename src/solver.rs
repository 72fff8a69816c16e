//! The best-first search from a start cell to a goal cell.
use vstd::prelude::*;

use crate::grid::{
    adjacent, in_bounds, is_open, is_route, reachable, sum_distance, well_formed,
    Coordination, EndingPoint, ManhattanDistance, Maze, StartingPoint, Tile,
};

verus! {

/// A candidate position of the search: the cell, the steps taken to reach it, and the
/// estimated total cost, `steps` plus the distance estimate to the goal.
struct Agent {
    coordination: Coordination,
    steps: usize,
    priority_points: usize,
}

/// The cells beside `c` inside a `w` by `h` grid, in the order right, left, down, up.
spec fn neighbor_order(c: Coordination, w: int, h: int) -> Seq<Coordination> {
    (if c.x + 1 < w { seq![Coordination { x: (c.x + 1) as usize, y: c.y }] } else { seq![] })
        + (if c.x > 0 { seq![Coordination { x: (c.x - 1) as usize, y: c.y }] } else { seq![] })
        + (if c.y + 1 < h { seq![Coordination { x: c.x, y: (c.y + 1) as usize }] } else { seq![] })
        + (if c.y > 0 { seq![Coordination { x: c.x, y: (c.y - 1) as usize }] } else { seq![] })
}

impl Agent {
    /// The cells of the maze that share a side with this candidate's cell, each once.
    fn neighbors_in(&self, maze: &Maze) -> (r: Vec<Coordination>)
        requires
            well_formed(maze@),
            in_bounds(maze@, self.coordination),
        ensures
            r@ == neighbor_order(self.coordination, maze@[0]@.len() as int, maze@.len() as int),
            r@.len() <= 4,
            r@.no_duplicates(),
            forall|n: Coordination|
                #[trigger] r@.contains(n) <==> (in_bounds(maze@, n) && adjacent(self.coordination, n)),
    {
        let c = self.coordination;
        let width = maze[0].len();
        let height = maze.len();
        let mut r: Vec<Coordination> = Vec::with_capacity(4);
        let ghost right = Coordination { x: (c.x + 1) as usize, y: c.y };
        let ghost left = Coordination { x: (c.x - 1) as usize, y: c.y };
        let ghost down = Coordination { x: c.x, y: (c.y + 1) as usize };
        let ghost up = Coordination { x: c.x, y: (c.y - 1) as usize };
        let ghost mut at: Seq<int> = seq![0int, 0int, 0int, 0int];
        let ghost s1: Seq<Coordination> = if c.x + 1 < width { seq![right] } else { seq![] };
        let ghost s2: Seq<Coordination> = if c.x > 0 { seq![left] } else { seq![] };
        let ghost s3: Seq<Coordination> = if c.y + 1 < height { seq![down] } else { seq![] };
        let ghost s4: Seq<Coordination> = if c.y > 0 { seq![up] } else { seq![] };
        if c.x + 1 < width {
            r.push(Coordination { x: c.x + 1, y: c.y });
            proof { at = at.update(0, r@.len() - 1); }
        }
        assert(r@ =~= s1);
        if c.x > 0 {
            r.push(Coordination { x: c.x - 1, y: c.y });
            proof { at = at.update(1, r@.len() - 1); }
        }
        assert(r@ =~= s1 + s2);
        if c.y + 1 < height {
            r.push(Coordination { x: c.x, y: c.y + 1 });
            proof { at = at.update(2, r@.len() - 1); }
        }
        assert(r@ =~= s1 + s2 + s3);
        if c.y > 0 {
            r.push(Coordination { x: c.x, y: c.y - 1 });
            proof { at = at.update(3, r@.len() - 1); }
        }
        assert(r@ =~= s1 + s2 + s3 + s4);
        proof {
            assert forall|n: Coordination|
                r@.contains(n) <==> (n.x < width && n.y < height && adjacent(c, n)) by {
                if n.x < width && n.y < height && adjacent(c, n) {
                    if n == right {
                        assert(r@[at[0]] == n);
                    } else if n == left {
                        assert(r@[at[1]] == n);
                    } else if n == down {
                        assert(r@[at[2]] == n);
                    } else {
                        assert(n == up);
                        assert(r@[at[3]] == n);
                    }
                }
            }
        }
        r
    }
}

/// A maze with a start cell and a goal cell.
pub struct MazeSolver {
    maze: Maze,
    starting_point: StartingPoint,
    ending_point: EndingPoint,
}

/// The value of a grid-shaped table at a cell.
spec fn cell<T>(g: Seq<Vec<T>>, c: Coordination) -> T {
    g[c.y as int]@[c.x as int]
}

/// The table has one entry per cell of a `w` by `h` grid.
spec fn shaped<T>(g: Seq<Vec<T>>, w: int, h: int) -> bool {
    &&& g.len() == h
    &&& forall|r: int| 0 <= r < h ==> (#[trigger] g[r])@.len() == w
}

/// The number of `true` entries of a row.
spec fn row_count(r: Seq<bool>) -> nat
    decreases r.len(),
{
    if r.len() == 0 {
        0
    } else {
        row_count(r.drop_last()) + if r.last() { 1nat } else { 0nat }
    }
}

/// The number of `true` entries of a table.
spec fn grid_count(g: Seq<Vec<bool>>) -> nat
    decreases g.len(),
{
    if g.len() == 0 {
        0
    } else {
        grid_count(g.drop_last()) + row_count(g.last()@)
    }
}

/// Some candidate of the frontier stands at `c`.
spec fn in_frontier(f: Seq<Agent>, c: Coordination) -> bool {
    exists|i: int| 0 <= i < f.len() && (#[trigger] f[i]).coordination == c
}

/// Every open cell beside `c` has been explored or waits in the frontier.
spec fn expanded(maze: Seq<Vec<Tile>>, ex: Seq<Vec<bool>>, f: Seq<Agent>, c: Coordination) -> bool {
    forall|n: Coordination|
        #![trigger adjacent(c, n)]
        in_bounds(maze, n) && adjacent(c, n) && is_open(maze, n) ==> cell(ex, n) || in_frontier(f, n)
}

/// Explored cells count five, unexplored ones one: popping an explored cell's candidate
/// and pushing at most four unexplored ones makes this smaller.
spec fn weight(f: Seq<Agent>, ex: Seq<Vec<bool>>) -> nat
    decreases f.len(),
{
    if f.len() == 0 {
        0
    } else {
        weight(f.drop_last(), ex) + if cell(ex, f.last().coordination) { 5nat } else { 1nat }
    }
}

proof fn lemma_row_count_bound(r: Seq<bool>)
    ensures
        row_count(r) <= r.len(),
    decreases r.len(),
{
    if r.len() > 0 {
        lemma_row_count_bound(r.drop_last());
    }
}

proof fn lemma_row_count_set(r: Seq<bool>, x: int)
    requires
        0 <= x < r.len(),
        !r[x],
    ensures
        row_count(r.update(x, true)) == row_count(r) + 1,
    decreases r.len(),
{
    let u = r.update(x, true);
    if x == r.len() - 1 {
        assert(u.drop_last() =~= r.drop_last());
    } else {
        assert(u.drop_last() =~= r.drop_last().update(x, true));
        lemma_row_count_set(r.drop_last(), x);
    }
}

proof fn lemma_row_count_none(r: Seq<bool>)
    requires
        forall|i: int| 0 <= i < r.len() ==> !r[i],
    ensures
        row_count(r) == 0,
    decreases r.len(),
{
    if r.len() > 0 {
        lemma_row_count_none(r.drop_last());
    }
}

proof fn lemma_grid_count_bound(g: Seq<Vec<bool>>, w: int)
    requires
        shaped(g, w, g.len() as int),
    ensures
        grid_count(g) <= g.len() * w,
    decreases g.len(),
{
    if g.len() > 0 {
        let k = g.len() - 1;
        assert(shaped(g.drop_last(), w, k));
        lemma_grid_count_bound(g.drop_last(), w);
        lemma_row_count_bound(g.last()@);
        assert(k * w + w == (k + 1) * w) by (nonlinear_arith);
    }
}

proof fn lemma_grid_count_none(g: Seq<Vec<bool>>)
    requires
        forall|r: int, i: int| 0 <= r < g.len() && 0 <= i < g[r]@.len() ==> !g[r]@[i],
    ensures
        grid_count(g) == 0,
    decreases g.len(),
{
    if g.len() > 0 {
        lemma_grid_count_none(g.drop_last());
        lemma_row_count_none(g.last()@);
    }
}

proof fn lemma_grid_count_update(g: Seq<Vec<bool>>, y: int, row: Vec<bool>)
    requires
        0 <= y < g.len(),
    ensures
        grid_count(g.update(y, row)) + row_count(g[y]@) == grid_count(g) + row_count(row@),
    decreases g.len(),
{
    let u = g.update(y, row);
    if y == g.len() - 1 {
        assert(u.drop_last() =~= g.drop_last());
    } else {
        assert(u.drop_last() =~= g.drop_last().update(y, row));
        lemma_grid_count_update(g.drop_last(), y, row);
    }
}

proof fn lemma_weight_remove(f: Seq<Agent>, ex: Seq<Vec<bool>>, i: int)
    requires
        0 <= i < f.len(),
    ensures
        weight(f, ex) == weight(f.remove(i), ex) + if cell(ex, f[i].coordination) { 5nat } else { 1nat },
    decreases f.len(),
{
    if i == f.len() - 1 {
        assert(f.remove(i) =~= f.drop_last());
    } else {
        assert(f.remove(i).drop_last() =~= f.drop_last().remove(i));
        assert(f.remove(i).last() == f.last());
        lemma_weight_remove(f.drop_last(), ex, i);
    }
}

proof fn lemma_weight_push(f: Seq<Agent>, ex: Seq<Vec<bool>>, a: Agent)
    ensures
        weight(f.push(a), ex) == weight(f, ex) + if cell(ex, a.coordination) { 5nat } else { 1nat },
{
    assert(f.push(a).drop_last() =~= f);
}

proof fn lemma_in_frontier_push(f: Seq<Agent>, a: Agent)
    ensures
        in_frontier(f.push(a), a.coordination),
        forall|c: Coordination| in_frontier(f, c) ==> #[trigger] in_frontier(f.push(a), c),
{
    assert(f.push(a)[f.len() as int] == a);
    assert forall|c: Coordination| in_frontier(f, c) implies #[trigger] in_frontier(f.push(a), c) by {
        let i = choose|i: int| 0 <= i < f.len() && (#[trigger] f[i]).coordination == c;
        assert(f.push(a)[i] == f[i]);
    }
}

proof fn lemma_in_frontier_remove(f: Seq<Agent>, i: int)
    requires
        0 <= i < f.len(),
    ensures
        forall|c: Coordination|
            in_frontier(f, c) && c != f[i].coordination ==> #[trigger] in_frontier(f.remove(i), c),
{
    assert forall|c: Coordination|
        in_frontier(f, c) && c != f[i].coordination implies #[trigger] in_frontier(f.remove(i), c) by {
        let k = choose|k: int| 0 <= k < f.len() && (#[trigger] f[k]).coordination == c;
        if k < i {
            assert(f.remove(i)[k] == f[k]);
        } else {
            assert(f.remove(i)[k - 1] == f[k]);
        }
    }
}

/// Popping the candidate at `i` and marking its cell explored keeps every other explored
/// cell waiting in the frontier or expanded.
proof fn lemma_pop_keeps_closed(
    m: Seq<Vec<Tile>>,
    ex_before: Seq<Vec<bool>>,
    ex: Seq<Vec<bool>>,
    f: Seq<Agent>,
    i: int,
)
    requires
        0 <= i < f.len(),
        closed_but(m, ex_before, f, None),
        forall|d: Coordination|
            in_bounds(m, d) ==> #[trigger] cell(ex, d) == (cell(ex_before, d) || d == f[i].coordination),
    ensures
        closed_but(m, ex, f.remove(i), Some(f[i].coordination)),
{
    let c = f[i].coordination;
    lemma_in_frontier_remove(f, i);
    assert forall|d: Coordination|
        in_bounds(m, d) && #[trigger] cell(ex, d) && Some(c) != Some(d) implies in_frontier(f.remove(i), d)
            || expanded(m, ex, f.remove(i), d) by {
        assert(cell(ex_before, d));
        if !in_frontier(f, d) {
            assert forall|n: Coordination|
                #![trigger adjacent(d, n)]
                in_bounds(m, n) && adjacent(d, n) && is_open(m, n) implies cell(ex, n) || in_frontier(
                    f.remove(i),
                    n,
                ) by {
                assert(expanded(m, ex_before, f, d));
                if !cell(ex_before, n) {
                    assert(in_frontier(f, n));
                }
            }
        }
    }
}

/// A set of explored cells that holds the start and is closed under stepping to an open
/// neighbour holds every cell of every route from the start.
proof fn lemma_route_explored(
    maze: Seq<Vec<Tile>>,
    ex: Seq<Vec<bool>>,
    p: Seq<Coordination>,
    start: Coordination,
    end: Coordination,
    k: int,
)
    requires
        well_formed(maze),
        shaped(ex, maze[0]@.len() as int, maze.len() as int),
        in_bounds(maze, start),
        cell(ex, start),
        is_route(maze, p, start, end),
        forall|c: Coordination, n: Coordination|
            in_bounds(maze, c) && #[trigger] cell(ex, c) && in_bounds(maze, n) && #[trigger] adjacent(c, n)
                && is_open(maze, n) ==> cell(ex, n),
        0 <= k < p.len(),
    ensures
        in_bounds(maze, p[k]),
        cell(ex, p[k]),
    decreases k,
{
    if k > 0 {
        lemma_route_explored(maze, ex, p, start, end, k - 1);
        assert(adjacent(p[k - 1], p[k]));
        assert(is_open(maze, p[k]));
        assert(maze[p[k].y as int]@.len() == maze[0]@.len());
    }
}

/// A `w` by `h` table with `v` in every cell.
fn grid_of<T: Copy>(w: usize, h: usize, v: T) -> (g: Vec<Vec<T>>)
    ensures
        shaped(g@, w as int, h as int),
        forall|r: int, i: int| 0 <= r < h && 0 <= i < w ==> g@[r]@[i] == v,
{
    let mut g: Vec<Vec<T>> = Vec::with_capacity(h);
    let mut r: usize = 0;
    while r < h
        invariant
            r <= h,
            g@.len() == r,
            forall|k: int| 0 <= k < r ==> (#[trigger] g@[k])@.len() == w,
            forall|k: int, i: int| 0 <= k < r && 0 <= i < w ==> g@[k]@[i] == v,
        decreases h - r,
    {
        let mut row: Vec<T> = Vec::with_capacity(w);
        let mut i: usize = 0;
        while i < w
            invariant
                i <= w,
                row@.len() == i,
                forall|k: int| 0 <= k < i ==> row@[k] == v,
            decreases w - i,
        {
            row.push(v);
            i = i + 1;
        }
        g.push(row);
        r = r + 1;
    }
    g
}

/// Writes `v` into the table at cell `c`.
fn set_cell<T>(g: &mut Vec<Vec<T>>, c: Coordination, v: T)
    requires
        c.y < old(g)@.len(),
        c.x < old(g)@[c.y as int]@.len(),
    ensures
        final(g)@.len() == old(g)@.len(),
        final(g)@[c.y as int]@ == old(g)@[c.y as int]@.update(c.x as int, v),
        forall|r: int| 0 <= r < old(g)@.len() && r != c.y ==> final(g)@[r] == old(g)@[r],
        forall|r: int| 0 <= r < old(g)@.len() ==> (#[trigger] final(g)@[r])@.len() == old(g)@[r]@.len(),
        forall|d: Coordination|
            d.y < old(g)@.len() && d.x < old(g)@[d.y as int]@.len() ==> #[trigger] cell(final(g)@, d)
                == if d == c {
                v
            } else {
                cell(old(g)@, d)
            },
{
    let mut row = g.remove(c.y);
    row.set(c.x, v);
    g.insert(c.y, row);
}

/// The first candidate of lowest estimated cost: ties go to the one pushed earliest.
fn cheapest_index(f: &Vec<Agent>) -> (i: usize)
    requires
        f@.len() > 0,
    ensures
        i < f@.len(),
        forall|j: int| 0 <= j < f@.len() ==> f@[i as int].priority_points <= f@[j].priority_points,
        forall|j: int| 0 <= j < i ==> f@[j].priority_points > f@[i as int].priority_points,
{
    let mut best: usize = 0;
    let mut j: usize = 1;
    while j < f.len()
        invariant
            0 < j <= f@.len(),
            best < j,
            forall|k: int| 0 <= k < j ==> f@[best as int].priority_points <= f@[k].priority_points,
            forall|k: int| 0 <= k < best ==> f@[k].priority_points > f@[best as int].priority_points,
        decreases f@.len() - j,
    {
        if f[j].priority_points < f[best].priority_points {
            best = j;
        }
        j = j + 1;
    }
    best
}

/// The bookkeeping of a search in progress over the explored cells and the predecessor
/// table: `count` cells are explored, `order` numbers them in the order they were first
/// explored, the start is explored and has no predecessor, every other explored cell has
/// one, and every predecessor is an explored neighbour, explored before the open cell it
/// leads to.
spec fn tables_ok(
    m: Seq<Vec<Tile>>,
    ex: Seq<Vec<bool>>,
    par: Seq<Vec<Option<Coordination>>>,
    count: nat,
    order: Map<Coordination, nat>,
    start: Coordination,
) -> bool {
    &&& shaped(ex, m[0]@.len() as int, m.len() as int)
    &&& shaped(par, m[0]@.len() as int, m.len() as int)
    &&& count == grid_count(ex)
    &&& 1 <= count <= m.len() * m[0]@.len()
    &&& cell(ex, start)
    &&& cell(par, start) is None
    &&& forall|c: Coordination|
        in_bounds(m, c) && #[trigger] cell(ex, c) ==> order.contains_key(c) && order[c] < count
    &&& forall|c: Coordination|
        #![trigger cell(par, c)]
        in_bounds(m, c) && cell(ex, c) && c != start ==> cell(par, c) is Some
    &&& forall|c: Coordination|
        in_bounds(m, c) && (#[trigger] cell(par, c)) is Some ==> {
            let p = cell(par, c)->Some_0;
            &&& in_bounds(m, p)
            &&& cell(ex, p)
            &&& adjacent(p, c)
            &&& is_open(m, c)
            &&& (cell(ex, c) ==> order[p] < order[c])
        }
}

/// Every candidate stands on a cell of the maze that is the start or has a predecessor,
/// has taken fewer steps than there are explored cells, strictly fewer once its cell is
/// explored, and is ranked by its steps plus the distance estimate to the goal.
spec fn frontier_ok(
    m: Seq<Vec<Tile>>,
    ex: Seq<Vec<bool>>,
    par: Seq<Vec<Option<Coordination>>>,
    f: Seq<Agent>,
    count: nat,
    start: Coordination,
    goal: Coordination,
) -> bool {
    forall|i: int|
        0 <= i < f.len() ==> {
            let a = #[trigger] f[i];
            &&& in_bounds(m, a.coordination)
            &&& (a.coordination == start || cell(par, a.coordination) is Some)
            &&& a.steps <= count
            &&& (cell(ex, a.coordination) ==> a.steps < count)
            &&& a.priority_points == a.steps + sum_distance(a.coordination, goal)
        }
}

/// Every explored cell other than `skip` still waits in the frontier or has been expanded.
spec fn closed_but(m: Seq<Vec<Tile>>, ex: Seq<Vec<bool>>, f: Seq<Agent>, skip: Option<Coordination>) -> bool {
    forall|c: Coordination|
        in_bounds(m, c) && #[trigger] cell(ex, c) && skip != Some(c) ==> in_frontier(f, c)
            || expanded(m, ex, f, c)
}

impl MazeSolver {
    /// The maze the search runs through.
    pub closed spec fn maze(&self) -> Seq<Vec<Tile>> {
        self.maze@
    }

    /// The cell the search starts from.
    pub closed spec fn start(&self) -> Coordination {
        self.starting_point
    }

    /// The cell the search looks for.
    pub closed spec fn end(&self) -> Coordination {
        self.ending_point
    }

    /// What a search needs: a non-empty rectangular maze, both endpoints inside it, and a
    /// maze small enough that step counts plus distances fit in a `usize`.
    pub open spec fn is_searchable(&self) -> bool {
        let m = self.maze();
        &&& well_formed(m)
        &&& in_bounds(m, self.start())
        &&& in_bounds(m, self.end())
        &&& m.len() * m[0]@.len() + m.len() + m[0]@.len() <= usize::MAX
    }

    pub fn new(maze: Maze, starting_point: StartingPoint, ending_point: EndingPoint) -> (r: Self)
        ensures
            r.maze() == maze@,
            r.start() == starting_point,
            r.end() == ending_point,
    {
        Self { maze, starting_point, ending_point }
    }

    fn is_solved(&self, agent: &Agent) -> (r: bool)
        ensures
            r == (agent.coordination == self.end()),
    {
        self.ending_point == agent.coordination
    }

    /// Pushes a candidate for each open, unexplored neighbour of the popped candidate's
    /// cell, and records that cell as the neighbour's predecessor.
    #[verifier::rlimit(20)]
    fn expand(
        &self,
        agent: &Agent,
        frontier: &mut Vec<Agent>,
        explored_set: &Vec<Vec<bool>>,
        parent_map: &mut Vec<Vec<Option<Coordination>>>,
        Ghost(count): Ghost<nat>,
        Ghost(order): Ghost<Map<Coordination, nat>>,
    )
        requires
            self.is_searchable(),
            tables_ok(self.maze(), explored_set@, old(parent_map)@, count, order, self.start()),
            frontier_ok(self.maze(), explored_set@, old(parent_map)@, old(frontier)@, count, self.start(), self.end()),
            closed_but(self.maze(), explored_set@, old(frontier)@, Some(agent.coordination)),
            in_bounds(self.maze(), agent.coordination),
            cell(explored_set@, agent.coordination),
            agent.steps < count,
            agent.coordination != self.end(),
            cell(explored_set@, self.end()) ==> in_frontier(old(frontier)@, self.end()),
        ensures
            tables_ok(self.maze(), explored_set@, final(parent_map)@, count, order, self.start()),
            frontier_ok(self.maze(), explored_set@, final(parent_map)@, final(frontier)@, count, self.start(), self.end()),
            closed_but(self.maze(), explored_set@, final(frontier)@, None),
            cell(explored_set@, self.end()) ==> in_frontier(final(frontier)@, self.end()),
            weight(final(frontier)@, explored_set@) <= weight(old(frontier)@, explored_set@) + 4,
    {
        let ghost m = self.maze@;
        let ghost ex = explored_set@;
        let ghost f0 = frontier@;
        let c = agent.coordination;
        let goal = self.ending_point;
        let w = self.maze[0].len();
        let h = self.maze.len();
        let neighbors = agent.neighbors_in(&self.maze);
        let mut j: usize = 0;
        while j < neighbors.len()
            invariant
                m == self.maze@,
                ex == explored_set@,
                self.is_searchable(),
                w == m[0]@.len(),
                h == m.len(),
                goal == self.end(),
                c == agent.coordination,
                c != goal,
                in_bounds(m, c),
                cell(ex, c),
                agent.steps < count,
                tables_ok(m, ex, parent_map@, count, order, self.start()),
                frontier_ok(m, ex, parent_map@, frontier@, count, self.start(), self.end()),
                closed_but(m, ex, frontier@, Some(c)),
                j <= neighbors@.len(),
                neighbors@.len() <= 4,
                forall|n: Coordination|
                    #[trigger] neighbors@.contains(n) <==> (in_bounds(m, n) && adjacent(c, n)),
                forall|k: int|
                    0 <= k < j ==> !is_open(m, #[trigger] neighbors@[k]) || cell(ex, neighbors@[k])
                        || in_frontier(frontier@, neighbors@[k]),
                cell(ex, goal) ==> in_frontier(frontier@, goal),
                weight(frontier@, ex) <= weight(f0, ex) + j,
            decreases neighbors@.len() - j,
        {
            let neighbor = neighbors[j];
            proof {
                assert(neighbors@.contains(neighbor));
            }
            if !explored_set[neighbor.y][neighbor.x] && neighbor.is_movable_in(&self.maze) {
                let new_steps = agent.steps + 1;
                proof {
                    lemma_grid_count_bound(ex, w as int);
                }
                let new_agent = Agent {
                    coordination: neighbor,
                    steps: new_steps,
                    priority_points: new_steps + ManhattanDistance::distance(&neighbor, &goal),
                };
                let ghost f1 = frontier@;
                let ghost par1 = parent_map@;
                frontier.push(new_agent);
                proof {
                    lemma_in_frontier_push(f1, new_agent);
                    lemma_weight_push(f1, ex, new_agent);
                }
                set_cell(parent_map, neighbor, Some(c));
                proof {
                    assert forall|d: Coordination|
                        in_bounds(m, d) && (#[trigger] cell(parent_map@, d)) is Some implies {
                            let p = cell(parent_map@, d)->Some_0;
                            &&& in_bounds(m, p)
                            &&& cell(ex, p)
                            &&& adjacent(p, d)
                            &&& is_open(m, d)
                            &&& (cell(ex, d) ==> order[p] < order[d])
                        } by {
                        if d != neighbor {
                            assert(cell(par1, d) is Some);
                        }
                    }
                    assert forall|i: int| 0 <= i < frontier@.len() implies {
                            let a = #[trigger] frontier@[i];
                            &&& in_bounds(m, a.coordination)
                            &&& (a.coordination == self.start() || cell(parent_map@, a.coordination) is Some)
                            &&& a.steps <= count
                            &&& (cell(ex, a.coordination) ==> a.steps < count)
                            &&& a.priority_points == a.steps + sum_distance(a.coordination, self.end())
                        } by {
                        if i < f1.len() {
                            assert(frontier@[i] == f1[i]);
                        }
                    }
                }
            }
            j = j + 1;
        }
        proof {
            assert forall|n: Coordination|
                #![trigger adjacent(c, n)]
                in_bounds(m, n) && adjacent(c, n) && is_open(m, n) implies cell(ex, n)
                    || in_frontier(frontier@, n) by {
                assert(neighbors@.contains(n));
            }
            assert(expanded(m, ex, frontier@, c));
        }
    }

    /// Follows the predecessors back from the goal to the start and returns the cells
    /// from the start to the goal.
    fn trace_back(
        &self,
        explored_set: &Vec<Vec<bool>>,
        parent_map: &Vec<Vec<Option<Coordination>>>,
        Ghost(count): Ghost<nat>,
        Ghost(order): Ghost<Map<Coordination, nat>>,
    ) -> (path: Vec<Coordination>)
        requires
            self.is_searchable(),
            tables_ok(self.maze(), explored_set@, parent_map@, count, order, self.start()),
            cell(explored_set@, self.end()),
        ensures
            is_route(self.maze(), path@, self.start(), self.end()),
            self.start() == self.end() ==> path@ == seq![self.start()],
    {
        let ghost m = self.maze@;
        let ghost ex = explored_set@;
        let ghost par = parent_map@;
        let ghost start = self.start();
        let goal = self.ending_point;
        let mut trail: Vec<Coordination> = Vec::new();
        trail.push(goal);
        loop
            invariant
                m == self.maze@,
                self.is_searchable(),
                tables_ok(m, ex, par, count, order, start),
                ex == explored_set@,
                par == parent_map@,
                trail@.len() >= 1,
                trail@[0] == goal,
                goal == self.end(),
                start == self.start(),
                goal == start ==> trail@.len() == 1,
                forall|k: int|
                    0 <= k < trail@.len() ==> in_bounds(m, #[trigger] trail@[k]) && cell(ex, trail@[k]),
                forall|k: int|
                    0 <= k < trail@.len() - 1 ==> adjacent(trail@[k + 1], #[trigger] trail@[k])
                        && is_open(m, trail@[k]),
            ensures
                trail@.len() >= 1,
                trail@[0] == goal,
                trail@.last() == start,
                goal == start ==> trail@.len() == 1,
                forall|k: int|
                    0 <= k < trail@.len() - 1 ==> adjacent(trail@[k + 1], #[trigger] trail@[k])
                        && is_open(m, trail@[k]),
            decreases order[trail@.last()],
        {
            let cur = trail[trail.len() - 1];
            proof {
                assert(in_bounds(m, trail@[trail@.len() - 1]));
                assert(cell(par, cur) == parent_map@[cur.y as int]@[cur.x as int]);
            }
            match parent_map[cur.y][cur.x] {
                Some(p) => {
                    let ghost t0 = trail@;
                    trail.push(p);
                    proof {
                        assert(trail@[t0.len() as int] == p);
                        assert forall|k: int| 0 <= k < trail@.len() - 1 implies adjacent(
                            trail@[k + 1],
                            #[trigger] trail@[k],
                        ) && is_open(m, trail@[k]) by {
                            if k < t0.len() - 1 {
                                assert(trail@[k + 1] == t0[k + 1]);
                            }
                        }
                    }
                },
                None => {
                    break;
                },
            }
        }
        let mut path: Vec<Coordination> = Vec::with_capacity(trail.len());
        let mut k: usize = trail.len();
        while k > 0
            invariant
                k <= trail@.len(),
                path@.len() == trail@.len() - k,
                forall|i: int| 0 <= i < path@.len() ==> path@[i] == trail@[trail@.len() - 1 - i],
            decreases k,
        {
            k = k - 1;
            path.push(trail[k]);
        }
        proof {
            let n = trail@.len();
            if goal == start {
                assert(path@ =~= seq![start]);
            }
            assert forall|i: int| 0 < i < path@.len() implies is_open(m, #[trigger] path@[i]) by {
                assert(is_open(m, trail@[n - 1 - i]));
            }
            assert forall|i: int|
                0 <= i < path@.len() - 1 implies adjacent(#[trigger] path@[i], path@[i + 1]) by {
                assert(adjacent(trail@[(n - 2 - i) + 1], trail@[n - 2 - i]));
            }
        }
        path
    }

    /// Searches for a route from the start cell to the goal cell.
    ///
    /// Candidates leave the frontier cheapest first, where the cost of a candidate is the
    /// number of steps taken plus the difference of the coordinate sums of its cell and the
    /// goal; among candidates of equal cost the one pushed earliest leaves first. Each open,
    /// unexplored neighbour of a popped cell is pushed, and the popped cell becomes its
    /// recorded predecessor, replacing any earlier one. The route is read back along the
    /// predecessors from the goal. When the frontier runs out first, no route exists and
    /// the result is `Err("No solution")`.
    #[verifier::rlimit(20)]
    pub fn solution(&self) -> (r: Result<Vec<Coordination>, &'static str>)
        requires
            self.is_searchable(),
        ensures
            r is Ok <==> reachable(self.maze(), self.start(), self.end()),
            r is Ok ==> is_route(self.maze(), r->Ok_0@, self.start(), self.end()),
            r is Err ==> r->Err_0@ == "No solution"@,
            self.start() == self.end() ==> r is Ok && r->Ok_0@ == seq![self.start()],
    {
        let ghost m = self.maze@;
        let w = self.maze[0].len();
        let h = self.maze.len();
        let ghost cells: int = h * w;
        let start = self.starting_point;
        let goal = self.ending_point;
        let mut explored_set: Vec<Vec<bool>> = grid_of(w, h, false);
        let mut parent_map: Vec<Vec<Option<Coordination>>> = grid_of(w, h, None);
        let mut frontier: Vec<Agent> = Vec::new();
        let mut final_agent: Option<Agent> = None;

        // The start is popped first and marked explored then; nothing reads the explored
        // set before that, so it may as well be marked now.
        proof {
            lemma_grid_count_none(explored_set@);
            lemma_row_count_set(explored_set@[start.y as int]@, start.x as int);
        }
        let ghost ex0 = explored_set@;
        set_cell(&mut explored_set, start, true);
        proof {
            lemma_grid_count_update(ex0, start.y as int, explored_set@[start.y as int]);
            assert(explored_set@ =~= ex0.update(start.y as int, explored_set@[start.y as int]));
            lemma_grid_count_bound(explored_set@, w as int);
        }
        let ghost mut count: nat = 1;
        let ghost mut order: Map<Coordination, nat> = map![start => 0nat];

        frontier.push(
            Agent {
                coordination: start,
                steps: 0,
                priority_points: ManhattanDistance::distance(&start, &goal),
            },
        );
        proof {
            assert(frontier@[0].coordination == start);
            assert(in_frontier(frontier@, start));
            assert(cell(parent_map@, start) is None);
            assert forall|c: Coordination|
                in_bounds(m, c) && #[trigger] cell(explored_set@, c) implies c == start by {
                assert(cell(ex0, c) == false);
            }
        }

        while frontier.len() > 0
            invariant_except_break
                closed_but(m, explored_set@, frontier@, None),
                cell(explored_set@, goal) ==> in_frontier(frontier@, goal),
                final_agent is None,
                goal == start ==> frontier@.len() == 1 && frontier@[0].coordination == start,
            invariant
                m == self.maze@,
                self.is_searchable(),
                w == m[0]@.len(),
                h == m.len(),
                cells == h * w,
                start == self.start(),
                goal == self.end(),
                tables_ok(m, explored_set@, parent_map@, count, order, start),
                frontier_ok(m, explored_set@, parent_map@, frontier@, count, start, goal),
            ensures
                final_agent is None ==> frontier@.len() == 0 && !cell(explored_set@, goal)
                    && closed_but(m, explored_set@, frontier@, None),
                final_agent is Some ==> cell(explored_set@, goal),
                goal == start ==> final_agent is Some,
            decreases cells - count, weight(frontier@, explored_set@),
        {
            let i = cheapest_index(&frontier);
            let ghost f_before = frontier@;
            let ghost ex_before = explored_set@;
            let ghost count_before = count;
            let agent = frontier.remove(i);
            let c = agent.coordination;
            proof {
                assert(f_before[i as int] == agent);
                lemma_in_frontier_remove(f_before, i as int);
                lemma_weight_remove(f_before, ex_before, i as int);
                assert forall|k: int| 0 <= k < frontier@.len() implies #[trigger] frontier@[k] == f_before[if k < i { k } else { k + 1 }] by {}
            }
            let was_explored = explored_set[c.y][c.x];
            proof {
                assert(was_explored == cell(ex_before, c));
            }
            if !was_explored {
                proof {
                    lemma_row_count_set(ex_before[c.y as int]@, c.x as int);
                }
                set_cell(&mut explored_set, c, true);
                proof {
                    lemma_grid_count_update(ex_before, c.y as int, explored_set@[c.y as int]);
                    assert(explored_set@ =~= ex_before.update(c.y as int, explored_set@[c.y as int]));
                    lemma_grid_count_bound(explored_set@, w as int);
                    order = order.insert(c, count);
                    count = count + 1;
                }
            }
            proof {
                assert(cell(explored_set@, c));
                assert(tables_ok(m, explored_set@, parent_map@, count, order, start)) by {
                    assert(cell(parent_map@, c) is Some || c == start);
                }
                assert(frontier_ok(m, explored_set@, parent_map@, frontier@, count, start, goal));
                assert forall|d: Coordination| in_bounds(m, d) implies #[trigger] cell(explored_set@, d)
                    == (cell(ex_before, d) || d == c) by {}
                lemma_pop_keeps_closed(m, ex_before, explored_set@, f_before, i as int);
            }
            if self.is_solved(&agent) {
                final_agent = Some(agent);
                break;
            }
            proof {
                assert(agent.steps < count);
            }
            self.expand(
                &agent,
                &mut frontier,
                &explored_set,
                &mut parent_map,
                Ghost(count),
                Ghost(order),
            );
        }

        match final_agent {
            Some(_) => {
                let path = self.trace_back(&explored_set, &parent_map, Ghost(count), Ghost(order));
                proof {
                    assert(start == self.start() && goal == self.end());
                }
                Ok(path)
            },
            None => {
                proof {
                    if reachable(m, start, goal) {
                        let p = choose|p: Seq<Coordination>| is_route(m, p, start, goal);
                        assert forall|c: Coordination, n: Coordination|
                            in_bounds(m, c) && #[trigger] cell(explored_set@, c) && in_bounds(m, n)
                                && #[trigger] adjacent(c, n) && is_open(m, n) implies cell(
                                explored_set@,
                                n,
                            ) by {
                            assert(expanded(m, explored_set@, frontier@, c));
                            if !cell(explored_set@, n) {
                                assert(in_frontier(frontier@, n));
                            }
                        }
                        lemma_route_explored(m, explored_set@, p, start, goal, p.len() - 1);
                    }
                }
                Err("No solution")
            },
        }
    }
}

/// Two outcomes of a search on the same solver agree: both are routes or both report that
/// no route exists, in which case they are equal, and when the start is the goal both are
/// that single cell.
pub proof fn lemma_solution_repeatable(
    s: MazeSolver,
    r1: Result<Vec<Coordination>, &str>,
    r2: Result<Vec<Coordination>, &str>,
)
    requires
        s.is_searchable(),
        r1 is Ok <==> reachable(s.maze(), s.start(), s.end()),
        r1 is Err ==> r1->Err_0@ == "No solution"@,
        s.start() == s.end() ==> r1 is Ok && r1->Ok_0@ == seq![s.start()],
        r2 is Ok <==> reachable(s.maze(), s.start(), s.end()),
        r2 is Err ==> r2->Err_0@ == "No solution"@,
        s.start() == s.end() ==> r2 is Ok && r2->Ok_0@ == seq![s.start()],
    ensures
        r1 is Ok <==> r2 is Ok,
        r1 is Err ==> r1->Err_0@ == r2->Err_0@,
        s.start() == s.end() ==> r1->Ok_0@ == r2->Ok_0@,
{
}

} // verus!
