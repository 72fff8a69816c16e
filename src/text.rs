//! The textual forms around a search: maze rows written as `'0'`/`'1'` characters, and a
//! route written as a list of moves.
use vstd::prelude::*;

use crate::grid::{Coordination, Tile};

verus! {

/// One move of a route.
#[derive(Debug, Clone, Copy, PartialEq, Eq, Structural)]
pub enum Direction {
    Left,
    Up,
    Right,
    Down,
}

/// The tile a character of a maze row stands for: `'1'` a wall, `'0'` an open tile.
pub open spec fn tile_of(b: u8) -> Option<Tile> {
    if b == 0x31 {
        Some(Tile::Wall)
    } else if b == 0x30 {
        Some(Tile::Path)
    } else {
        None
    }
}

/// The move from `a` to `b`, read from the differences of the coordinates: a step back
/// along x is left, otherwise a step back along y is up, otherwise a step forward along
/// x is right, otherwise a step forward along y is down.
pub open spec fn direction_of(a: Coordination, b: Coordination) -> Option<Direction> {
    let dx = b.x - a.x;
    let dy = b.y - a.y;
    if dx == -1 {
        Some(Direction::Left)
    } else if dy == -1 {
        Some(Direction::Up)
    } else if dx == 1 {
        Some(Direction::Right)
    } else if dy == 1 {
        Some(Direction::Down)
    } else {
        None
    }
}

impl Direction {
    pub open spec fn spec_label(self) -> Seq<char> {
        match self {
            Direction::Left => "left"@,
            Direction::Up => "up"@,
            Direction::Right => "right"@,
            Direction::Down => "down"@,
        }
    }

    /// The word for this move.
    pub fn label(&self) -> (r: &'static str)
        ensures
            r@ == self.spec_label(),
    {
        match self {
            Direction::Left => "left",
            Direction::Up => "up",
            Direction::Right => "right",
            Direction::Down => "down",
        }
    }
}

/// Reads one row of a maze of the given width. `None` when the row has another length or
/// holds a character other than `'0'` and `'1'`.
pub fn parse_maze_row(line: &[u8], width: usize) -> (r: Option<Vec<Tile>>)
    ensures
        r is Some <==> (line@.len() == width && forall|i: int|
            0 <= i < line@.len() ==> #[trigger] tile_of(line@[i]) is Some),
        r is Some ==> r->Some_0@.len() == line@.len() && forall|i: int|
            0 <= i < line@.len() ==> Some(#[trigger] r->Some_0@[i]) == tile_of(line@[i]),
{
    if line.len() != width {
        return None;
    }
    let mut row: Vec<Tile> = Vec::with_capacity(width);
    let mut i: usize = 0;
    while i < line.len()
        invariant
            i <= line@.len(),
            row@.len() == i,
            forall|k: int| 0 <= k < i ==> #[trigger] tile_of(line@[k]) is Some,
            forall|k: int| 0 <= k < i ==> Some(#[trigger] row@[k]) == tile_of(line@[k]),
        decreases line@.len() - i,
    {
        let b = line[i];
        if b == 0x31 {
            row.push(Tile::Wall);
        } else if b == 0x30 {
            row.push(Tile::Path);
        } else {
            proof {
                assert(tile_of(line@[i as int]) is None);
            }
            return None;
        }
        proof {
            assert(row@[i as int] == tile_of(line@[i as int])->Some_0);
        }
        i = i + 1;
    }
    Some(row)
}

/// The byte is an ASCII decimal digit.
pub open spec fn is_digit(b: u8) -> bool {
    0x30 <= b <= 0x39
}

/// The number that a string of decimal digits denotes.
pub open spec fn decimal_value(s: Seq<u8>) -> nat
    decreases s.len(),
{
    if s.len() == 0 {
        0
    } else {
        decimal_value(s.drop_last()) * 10 + (s.last() - 0x30) as nat
    }
}

proof fn lemma_decimal_value_grows(s: Seq<u8>, k: int)
    requires
        0 <= k <= s.len(),
        forall|i: int| 0 <= i < s.len() ==> #[trigger] is_digit(s[i]),
    ensures
        decimal_value(s.subrange(0, k)) <= decimal_value(s),
    decreases s.len() - k,
{
    if k < s.len() {
        lemma_decimal_value_grows(s, k + 1);
        assert(s.subrange(0, k + 1).drop_last() =~= s.subrange(0, k));
    } else {
        assert(s.subrange(0, k) =~= s);
    }
}

/// The digits of a number written with an optional leading `+`: the text after the sign,
/// or the whole text when it has none.
pub open spec fn unsigned_digits(s: Seq<u8>) -> Seq<u8> {
    if s.len() > 0 && s[0] == 0x2b {
        s.subrange(1, s.len() as int)
    } else {
        s
    }
}

/// Reads a non-negative decimal number, optionally preceded by one `+`. `None` when no
/// digit follows the sign, a character other than a digit follows it, or the number is
/// too large for a `usize`.
pub fn parse_usize(text: &[u8]) -> (r: Option<usize>)
    ensures
        r is Some <==> ({
            let d = unsigned_digits(text@);
            &&& d.len() > 0
            &&& forall|i: int| 0 <= i < d.len() ==> #[trigger] is_digit(d[i])
            &&& decimal_value(d) <= usize::MAX
        }),
        r is Some ==> r->Some_0 == decimal_value(unsigned_digits(text@)),
{
    let ghost d = unsigned_digits(text@);
    let start: usize = if text.len() > 0 && text[0] == 0x2b { 1 } else { 0 };
    proof {
        assert(d =~= text@.subrange(start as int, text@.len() as int));
    }
    if text.len() == start {
        return None;
    }
    let mut value: usize = 0;
    let mut i: usize = start;
    while i < text.len()
        invariant
            start <= i <= text@.len(),
            d == text@.subrange(start as int, text@.len() as int),
            d == unsigned_digits(text@),
            forall|k: int| 0 <= k < i - start ==> #[trigger] is_digit(d[k]),
            value == decimal_value(d.subrange(0, i - start)),
        decreases text@.len() - i,
    {
        let b = text[i];
        if b < 0x30 || b > 0x39 {
            proof {
                assert(!is_digit(d[i - start]));
            }
            return None;
        }
        let dig = (b - 0x30) as usize;
        proof {
            assert(d[i - start] == b);
            assert(d.subrange(0, i - start + 1).drop_last() =~= d.subrange(0, i - start));
        }
        if value > (usize::MAX - dig) / 10 {
            proof {
                if forall|k: int| 0 <= k < d.len() ==> #[trigger] is_digit(d[k]) {
                    lemma_decimal_value_grows(d, i - start + 1);
                }
            }
            return None;
        }
        value = value * 10 + dig;
        i = i + 1;
    }
    proof {
        assert(d.subrange(0, i - start) =~= d);
    }
    Some(value)
}

/// The move from one cell to the next, or `None` when the cells are not side by side.
pub fn step_direction(before: Coordination, after: Coordination) -> (r: Option<Direction>)
    ensures
        r == direction_of(before, after),
{
    if after.x < before.x && before.x - after.x == 1 {
        Some(Direction::Left)
    } else if after.y < before.y && before.y - after.y == 1 {
        Some(Direction::Up)
    } else if after.x > before.x && after.x - before.x == 1 {
        Some(Direction::Right)
    } else if after.y > before.y && after.y - before.y == 1 {
        Some(Direction::Down)
    } else {
        None
    }
}

/// The moves along a route, one for each consecutive pair of cells, or `None` when some
/// pair is not side by side.
pub fn directions(path: &Vec<Coordination>) -> (r: Option<Vec<Direction>>)
    ensures
        r is Some <==> forall|i: int|
            0 <= i < path@.len() - 1 ==> #[trigger] direction_of(path@[i], path@[i + 1]) is Some,
        r is Some ==> r->Some_0@.len() == if path@.len() == 0 { 0 } else { path@.len() - 1 },
        r is Some ==> forall|i: int|
            0 <= i < path@.len() - 1 ==> Some(#[trigger] r->Some_0@[i]) == direction_of(path@[i], path@[i + 1]),
{
    let mut moves: Vec<Direction> = Vec::new();
    if path.len() == 0 {
        return Some(moves);
    }
    let mut i: usize = 0;
    let last: usize = path.len() - 1;
    while i < last
        invariant
            path@.len() >= 1,
            last == path@.len() - 1,
            i <= last,
            moves@.len() == i,
            forall|k: int| 0 <= k < i ==> #[trigger] direction_of(path@[k], path@[k + 1]) is Some,
            forall|k: int| 0 <= k < i ==> Some(#[trigger] moves@[k]) == direction_of(path@[k], path@[k + 1]),
        decreases last - i,
    {
        match step_direction(path[i], path[i + 1]) {
            Some(d) => {
                moves.push(d);
                proof {
                    assert(moves@[i as int] == d);
                }
            },
            None => {
                return None;
            },
        }
        i = i + 1;
    }
    Some(moves)
}

} // verus!
