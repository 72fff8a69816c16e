//! Tiles, coordinates and the geometry of a rectangular maze.
use vstd::prelude::*;

verus! {

/// One cell of a maze.
#[derive(Debug, Clone, Copy, PartialEq, Eq, Structural)]
pub enum Tile {
    Wall,
    Path,
}

/// A cell position: `x` is the column, `y` the row, both counted from zero.
#[derive(Debug, Clone, Copy, PartialEq, Eq, Hash, Structural)]
pub struct Coordination {
    pub x: usize,
    pub y: usize,
}

/// A maze is a sequence of rows, each a sequence of tiles.
pub type Maze = Vec<Vec<Tile>>;

pub type StartingPoint = Coordination;

pub type EndingPoint = Coordination;

/// Non-empty and rectangular: at least one row, every row as long as the first, which is non-empty.
pub open spec fn well_formed(maze: Seq<Vec<Tile>>) -> bool {
    &&& maze.len() > 0
    &&& maze[0]@.len() > 0
    &&& forall|r: int| 0 <= r < maze.len() ==> (#[trigger] maze[r])@.len() == maze[0]@.len()
}

pub open spec fn width(maze: Seq<Vec<Tile>>) -> int {
    maze[0]@.len() as int
}

pub open spec fn height(maze: Seq<Vec<Tile>>) -> int {
    maze.len() as int
}

/// The coordinate names a cell of the (well-formed) maze.
pub open spec fn in_bounds(maze: Seq<Vec<Tile>>, c: Coordination) -> bool {
    c.x < width(maze) && c.y < height(maze)
}

/// The coordinate names a cell of the maze and that cell is open.
pub open spec fn is_open(maze: Seq<Vec<Tile>>, c: Coordination) -> bool {
    &&& c.y < maze.len()
    &&& c.x < maze[c.y as int]@.len()
    &&& maze[c.y as int]@[c.x as int] == Tile::Path
}

pub open spec fn abs_diff(a: int, b: int) -> nat {
    if a >= b { (a - b) as nat } else { (b - a) as nat }
}

/// The two cells share a side: one unit apart on exactly one axis.
pub open spec fn adjacent(a: Coordination, b: Coordination) -> bool {
    abs_diff(a.x as int, b.x as int) + abs_diff(a.y as int, b.y as int) == 1
}

/// The usual grid distance between two cells.
pub open spec fn manhattan(a: Coordination, b: Coordination) -> nat {
    abs_diff(a.x as int, b.x as int) + abs_diff(a.y as int, b.y as int)
}

/// The search's estimate of the remaining distance: the difference of the coordinate sums.
pub open spec fn sum_distance(a: Coordination, b: Coordination) -> nat {
    abs_diff(a.x + a.y, b.x + b.y)
}

/// A route through the maze from `start` to `end`: it begins at `start`, ends at `end`,
/// each step moves to a cell that shares a side with the previous one, and every cell
/// entered after the first is open.
pub open spec fn is_route(
    maze: Seq<Vec<Tile>>,
    p: Seq<Coordination>,
    start: Coordination,
    end: Coordination,
) -> bool {
    &&& p.len() > 0
    &&& p[0] == start
    &&& p.last() == end
    &&& forall|i: int| 0 < i < p.len() ==> is_open(maze, #[trigger] p[i])
    &&& forall|i: int| 0 <= i < p.len() - 1 ==> adjacent(#[trigger] p[i], p[i + 1])
}

/// Some route leads from `start` to `end`.
pub open spec fn reachable(maze: Seq<Vec<Tile>>, start: Coordination, end: Coordination) -> bool {
    exists|p: Seq<Coordination>| is_route(maze, p, start, end)
}

/// Every cell of the maze is open.
pub open spec fn all_open(maze: Seq<Vec<Tile>>) -> bool {
    forall|r: int, i: int| 0 <= r < maze.len() && 0 <= i < maze[r]@.len() ==> maze[r]@[i] == Tile::Path
}

/// One step from `a` toward `b`, along x first.
pub open spec fn step_toward(a: Coordination, b: Coordination) -> Coordination {
    if a.x < b.x {
        Coordination { x: (a.x + 1) as usize, y: a.y }
    } else if a.x > b.x {
        Coordination { x: (a.x - 1) as usize, y: a.y }
    } else if a.y < b.y {
        Coordination { x: a.x, y: (a.y + 1) as usize }
    } else {
        Coordination { x: a.x, y: (a.y - 1) as usize }
    }
}

/// The route from `a` to `b` that first walks along x, then along y.
pub open spec fn straight_route(a: Coordination, b: Coordination) -> Seq<Coordination>
    decreases manhattan(a, b),
{
    if a == b {
        seq![a]
    } else {
        seq![a] + straight_route(step_toward(a, b), b)
    }
}

/// A route takes at least as many steps as the grid distance between its ends.
pub proof fn lemma_route_at_least_manhattan(
    maze: Seq<Vec<Tile>>,
    p: Seq<Coordination>,
    start: Coordination,
    end: Coordination,
)
    requires
        is_route(maze, p, start, end),
    ensures
        p.len() - 1 >= manhattan(start, end),
{
    lemma_prefix_at_least_manhattan(maze, p, start, end, p.len() - 1);
}

proof fn lemma_prefix_at_least_manhattan(
    maze: Seq<Vec<Tile>>,
    p: Seq<Coordination>,
    start: Coordination,
    end: Coordination,
    k: int,
)
    requires
        is_route(maze, p, start, end),
        0 <= k < p.len(),
    ensures
        k >= manhattan(start, p[k]),
    decreases k,
{
    if k > 0 {
        lemma_prefix_at_least_manhattan(maze, p, start, end, k - 1);
        assert(adjacent(p[k - 1], p[k]));
    }
}

/// When the start cell is open, every cell of a route is open.
pub proof fn lemma_route_cells_open(
    maze: Seq<Vec<Tile>>,
    p: Seq<Coordination>,
    start: Coordination,
    end: Coordination,
)
    requires
        is_route(maze, p, start, end),
        is_open(maze, start),
    ensures
        forall|i: int| 0 <= i < p.len() ==> is_open(maze, #[trigger] p[i]),
{
}

/// In a maze without walls, any two cells are joined by a route whose number of steps is
/// exactly their grid distance, and no route between them is shorter.
pub proof fn lemma_open_maze_routes(maze: Seq<Vec<Tile>>, a: Coordination, b: Coordination)
    requires
        well_formed(maze),
        all_open(maze),
        in_bounds(maze, a),
        in_bounds(maze, b),
    ensures
        is_route(maze, straight_route(a, b), a, b),
        straight_route(a, b).len() - 1 == manhattan(a, b),
        reachable(maze, a, b),
        forall|p: Seq<Coordination>| is_route(maze, p, a, b) ==> p.len() - 1 >= manhattan(a, b),
    decreases manhattan(a, b),
{
    if a != b {
        let n = step_toward(a, b);
        lemma_open_maze_routes(maze, n, b);
        let rest = straight_route(n, b);
        let p = straight_route(a, b);
        assert(p =~= seq![a] + rest);
        assert(is_open(maze, n)) by {
            assert(maze[n.y as int]@.len() == maze[0]@.len());
        }
        assert forall|i: int| 0 < i < p.len() implies is_open(maze, #[trigger] p[i]) by {
            assert(p[i] == rest[i - 1]);
            if i > 1 {
                assert(is_open(maze, rest[i - 1]));
            }
        }
        assert forall|i: int| 0 <= i < p.len() - 1 implies adjacent(#[trigger] p[i], p[i + 1]) by {
            if i > 0 {
                assert(p[i] == rest[i - 1]);
                assert(p[i + 1] == rest[i]);
                assert(adjacent(rest[i - 1], rest[i]));
            }
        }
        assert(p.last() == rest.last());
        assert(is_route(maze, p, a, b));
    } else {
        assert(is_route(maze, straight_route(a, b), a, b));
    }
    assert forall|p: Seq<Coordination>| is_route(maze, p, a, b) implies p.len() - 1 >= manhattan(a, b) by {
        lemma_route_at_least_manhattan(maze, p, a, b);
    }
}

impl Coordination {
    pub fn new(x: usize, y: usize) -> (r: Coordination)
        ensures
            r.x == x,
            r.y == y,
    {
        Coordination { x, y }
    }

    pub fn x(&self) -> (r: usize)
        ensures
            r == self.x,
    {
        self.x
    }

    pub fn y(&self) -> (r: usize)
        ensures
            r == self.y,
    {
        self.y
    }

    /// The sum of the two coordinates.
    pub(crate) fn absolute_manhattan(&self) -> (r: usize)
        requires
            self.x + self.y <= usize::MAX,
        ensures
            r == self.x + self.y,
    {
        self.x + self.y
    }

    /// Whether this cell lies in the maze and is open.
    pub(crate) fn is_movable_in(&self, maze: &Maze) -> (r: bool)
        requires
            well_formed(maze@),
            in_bounds(maze@, *self),
        ensures
            r == is_open(maze@, *self),
    {
        maze[self.y][self.x] == Tile::Path
    }
}

/// The search's distance estimate.
pub(crate) struct ManhattanDistance;

impl ManhattanDistance {
    pub(crate) fn distance(from: &Coordination, to: &Coordination) -> (r: usize)
        requires
            from.x + from.y <= usize::MAX,
            to.x + to.y <= usize::MAX,
        ensures
            r == sum_distance(*from, *to),
    {
        let a = from.absolute_manhattan();
        let b = to.absolute_manhattan();
        if a >= b { a - b } else { b - a }
    }
}

} // verus!
