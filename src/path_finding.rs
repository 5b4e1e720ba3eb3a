use vstd::prelude::*;
use vstd::string::StringSliceAdditionalSpecFns;

verus! {

/// A position in a maze: column `x` (a byte offset in the row), row `y`.
#[derive(Debug, PartialEq, Eq, Structural, Hash, Clone, Copy)]
pub struct Point {
    pub x: i32,
    pub y: i32,
}

/// The character at `p`, where `p` names a one-byte character of a row.
pub open spec fn cell_at(maze: Seq<&str>, p: Point) -> Option<char> {
    if 0 <= p.y < maze.len() && 0 <= p.x < maze[p.y as int].spec_bytes().len()
        && maze[p.y as int].spec_bytes()[p.x as int] < 128 {
        Some(maze[p.y as int].spec_bytes()[p.x as int] as char)
    } else {
        None
    }
}

/// `p` is a cell of the maze that is not a wall.
pub open spec fn is_open(maze: Seq<&str>, wall: char, p: Point) -> bool {
    cell_at(maze, p) matches Some(c) && c != wall
}

/// The four steps tried from each cell, in order: up, right, down, left.
pub open spec fn direction(k: int) -> (i32, i32) {
    if k == 0 {
        (0i32, -1i32)
    } else if k == 1 {
        (1i32, 0i32)
    } else if k == 2 {
        (0i32, 1i32)
    } else {
        (-1i32, 0i32)
    }
}

/// `p` and `q` are one step apart, vertically or horizontally.
pub open spec fn adjacent(p: Point, q: Point) -> bool {
    exists|k: int| 0 <= k < 4 && q.x == p.x + direction(k).0 && q.y == p.y + direction(k).1
}

/// `route` leads from `start` to `end` in single steps, through open cells
/// only, except that `end` itself may be any position.
pub open spec fn is_route(maze: Seq<&str>, wall: char, route: Seq<Point>, start: Point, end: Point) -> bool {
    &&& route.len() >= 1
    &&& route[0] == start
    &&& route.last() == end
    &&& forall|i: int| 0 <= i < route.len() - 1 ==> is_open(maze, wall, #[trigger] route[i])
    &&& forall|i: int| 0 <= i < route.len() - 1 ==> adjacent(#[trigger] route[i], route[i + 1])
}

/// The seen-marks have one entry per byte of each row.
pub open spec fn fits_maze(maze: Seq<&str>, seen: Seq<Vec<bool>>) -> bool {
    &&& seen.len() == maze.len()
    &&& forall|y: int| 0 <= y < maze.len() ==> #[trigger] seen[y]@.len() == maze[y].spec_bytes().len()
}

/// Coordinates of the maze fit in `i32`.
pub open spec fn maze_fits_i32(maze: Seq<&str>) -> bool {
    &&& maze.len() <= i32::MAX
    &&& forall|y: int| 0 <= y < maze.len() ==> #[trigger] maze[y].spec_bytes().len() <= i32::MAX
}

/// `b` has every mark `a` has, and the same shape.
pub open spec fn marks_grow(a: Seq<Vec<bool>>, b: Seq<Vec<bool>>) -> bool {
    &&& a.len() == b.len()
    &&& forall|y: int| 0 <= y < a.len() ==> #[trigger] b[y]@.len() == a[y]@.len()
    &&& forall|y: int, x: int| 0 <= y < a.len() && 0 <= x < a[y]@.len() && #[trigger] a[y]@[x]
        ==> b[y]@[x]
}

spec fn count_unmarked(r: Seq<bool>) -> nat
    decreases r.len(),
{
    if r.len() == 0 {
        0
    } else {
        count_unmarked(r.drop_last()) + if r.last() { 0nat } else { 1nat }
    }
}

spec fn unmarked(g: Seq<Vec<bool>>) -> nat
    decreases g.len(),
{
    if g.len() == 0 {
        0
    } else {
        unmarked(g.drop_last()) + count_unmarked(g.last()@)
    }
}

proof fn lemma_count_unmarked_grow(a: Seq<bool>, b: Seq<bool>)
    requires
        a.len() == b.len(),
        forall|x: int| 0 <= x < a.len() && a[x] ==> b[x],
    ensures
        count_unmarked(b) <= count_unmarked(a),
    decreases a.len(),
{
    if a.len() > 0 {
        lemma_count_unmarked_grow(a.drop_last(), b.drop_last());
    }
}

proof fn lemma_count_unmarked_mark(a: Seq<bool>, x: int)
    requires
        0 <= x < a.len(),
        !a[x],
    ensures
        count_unmarked(a.update(x, true)) + 1 == count_unmarked(a),
    decreases a.len(),
{
    if x < a.len() - 1 {
        lemma_count_unmarked_mark(a.drop_last(), x);
        assert(a.update(x, true).drop_last() =~= a.drop_last().update(x, true));
    } else {
        assert(a.update(x, true).drop_last() =~= a.drop_last());
    }
}

proof fn lemma_unmarked_grow(a: Seq<Vec<bool>>, b: Seq<Vec<bool>>)
    requires
        marks_grow(a, b),
    ensures
        unmarked(b) <= unmarked(a),
    decreases a.len(),
{
    if a.len() > 0 {
        let n = a.len() - 1;
        assert(marks_grow(a.drop_last(), b.drop_last())) by {
            assert forall|y: int, x: int| 0 <= y < n && 0 <= x < a.drop_last()[y]@.len()
                && #[trigger] a.drop_last()[y]@[x] implies b.drop_last()[y]@[x] by {
                assert(a[y]@[x]);
            }
        }
        lemma_unmarked_grow(a.drop_last(), b.drop_last());
        assert forall|x: int| 0 <= x < a[n]@.len() && a[n]@[x] implies b[n]@[x] by {
            assert(a[n]@[x]);
        }
        lemma_count_unmarked_grow(a[n]@, b[n]@);
    }
}

proof fn lemma_unmarked_mark(a: Seq<Vec<bool>>, b: Seq<Vec<bool>>, y: int, x: int)
    requires
        0 <= y < a.len(),
        0 <= x < a[y]@.len(),
        !a[y]@[x],
        b.len() == a.len(),
        forall|z: int| 0 <= z < a.len() && z != y ==> #[trigger] b[z] == a[z],
        b[y]@ == a[y]@.update(x, true),
    ensures
        unmarked(b) + 1 == unmarked(a),
    decreases a.len(),
{
    let n = a.len() - 1;
    if y < n {
        lemma_unmarked_mark(a.drop_last(), b.drop_last(), y, x);
        assert(b[n] == a[n]);
    } else {
        lemma_count_unmarked_mark(a[y]@, x);
        assert(a.drop_last() =~= b.drop_last());
    }
}

/// The step to take in direction `k`.
fn step(k: usize) -> (r: (i32, i32))
    requires
        k < 4,
    ensures
        r == direction(k as int),
{
    if k == 0 {
        (0, -1)
    } else if k == 1 {
        (1, 0)
    } else if k == 2 {
        (0, 1)
    } else {
        (-1, 0)
    }
}

/// The one-byte character at `p`, if `p` names one.
fn cell(maze: &Vec<&str>, p: Point) -> (r: Option<char>)
    ensures
        r == cell_at(maze@, p),
{
    if p.y < 0 || p.x < 0 || p.y as usize >= maze.len() {
        return None;
    }
    let bytes = maze[p.y as usize].as_bytes();
    if p.x as usize >= bytes.len() {
        return None;
    }
    let b = bytes[p.x as usize];
    if b < 128 {
        Some(b as char)
    } else {
        None
    }
}

/// Searches depth first from `curr` for `end`, never entering a cell
/// marked in `seen` and marking each cell of the maze it enters. On success
/// the route from `curr` to `end` is appended to `path`; otherwise `path`
/// is left as it was.
fn walk(
    maze: &Vec<&str>,
    wall: char,
    curr: Point,
    end: &Point,
    seen: &mut Vec<Vec<bool>>,
    path: &mut Vec<Point>,
) -> (r: bool)
    requires
        fits_maze(maze@, old(seen)@),
        maze_fits_i32(maze@),
    ensures
        fits_maze(maze@, final(seen)@),
        marks_grow(old(seen)@, final(seen)@),
        r ==> final(path)@.len() > old(path)@.len() && final(path)@.subrange(
            0,
            old(path)@.len() as int,
        ) == old(path)@ && is_route(
            maze@,
            wall,
            final(path)@.subrange(old(path)@.len() as int, final(path)@.len() as int),
            curr,
            *end,
        ),
        !r ==> final(path)@ == old(path)@,
        curr == *end ==> r && final(path)@ == old(path)@.push(curr),
    decreases unmarked(old(seen)@),
{
    let ghost start_path = path@;
    if curr == *end {
        path.push(curr);
        proof {
            assert(path@.subrange(0, start_path.len() as int) =~= start_path);
            assert(path@.subrange(start_path.len() as int, path@.len() as int) =~= seq![curr]);
        }
        return true;
    }
    if curr.y < 0 || curr.x < 0 || curr.y as usize >= maze.len() {
        return false;
    }
    let y = curr.y as usize;
    let x = curr.x as usize;
    if x >= seen[y].len() || seen[y][x] {
        return false;
    }
    let ghost before_mark = seen@;
    seen[y].set(x, true);
    proof {
        lemma_unmarked_mark(before_mark, seen@, y as int, x as int);
        assert forall|yy: int, xx: int| 0 <= yy < before_mark.len() && 0 <= xx < before_mark[yy]@.len()
            && #[trigger] before_mark[yy]@[xx] implies seen@[yy]@[xx] by {
            if yy == y {
                assert(seen@[yy]@ == before_mark[yy]@.update(x as int, true));
            }
        }
        assert(marks_grow(before_mark, seen@));
    }
    let ch = match cell(maze, curr) {
        Some(ch) => ch,
        None => {
            return false;
        },
    };
    if ch == wall {
        return false;
    }
    path.push(curr);
    let mut k: usize = 0;
    while k < 4
        invariant
            fits_maze(maze@, seen@),
            maze_fits_i32(maze@),
            marks_grow(old(seen)@, seen@),
            unmarked(seen@) < unmarked(old(seen)@),
            path@ == start_path.push(curr),
            start_path == old(path)@,
            is_open(maze@, wall, curr),
            0 <= curr.x < maze@[curr.y as int].spec_bytes().len(),
            0 <= curr.y < maze@.len(),
            curr != *end,
        decreases 4 - k,
    {
        let (dx, dy) = step(k);
        let next = Point { x: curr.x + dx, y: curr.y + dy };
        let ghost before = seen@;
        let ghost mid_path = path@;
        if walk(maze, wall, next, end, seen, path) {
            proof {
                assert(next.x == curr.x + direction(k as int).0 && next.y == curr.y + direction(k as int).1);
                assert(adjacent(curr, next));
                lemma_route_extend(maze@, wall, start_path, path@, curr, next, *end);
                lemma_marks_grow_trans(old(seen)@, before, seen@);
            }
            return true;
        }
        proof {
            lemma_unmarked_grow(before, seen@);
            lemma_marks_grow_trans(old(seen)@, before, seen@);
        }
        k = k + 1;
    }
    path.pop();
    proof {
        assert(path@ =~= start_path);
    }
    false
}

proof fn lemma_route_extend(
    maze: Seq<&str>,
    wall: char,
    prefix: Seq<Point>,
    full: Seq<Point>,
    curr: Point,
    next: Point,
    end: Point,
)
    requires
        is_open(maze, wall, curr),
        adjacent(curr, next),
        full.len() > prefix.len() + 1,
        full.subrange(0, prefix.len() + 1int) == prefix.push(curr),
        is_route(maze, wall, full.subrange(prefix.len() + 1int, full.len() as int), next, end),
    ensures
        full.subrange(0, prefix.len() as int) == prefix,
        is_route(maze, wall, full.subrange(prefix.len() as int, full.len() as int), curr, end),
{
    let n = prefix.len() as int;
    let tail = full.subrange(n + 1, full.len() as int);
    let route = full.subrange(n, full.len() as int);
    assert(full.subrange(0, n + 1)[n] == full[n]);
    assert(route =~= seq![curr] + tail);
    assert(full.subrange(0, n) =~= prefix) by {
        assert forall|i: int| 0 <= i < n implies full[i] == prefix[i] by {
            assert(full.subrange(0, n + 1)[i] == full[i]);
        }
    }
    assert forall|i: int| 0 <= i < route.len() - 1 implies is_open(maze, wall, #[trigger] route[i]) by {
        if i > 0 {
            assert(route[i] == tail[i - 1]);
        }
    }
    assert forall|i: int| 0 <= i < route.len() - 1 implies adjacent(#[trigger] route[i], route[i + 1]) by {
        if i > 0 {
            assert(route[i] == tail[i - 1]);
        }
        assert(route[i + 1] == tail[i]);
    }
    assert(route.last() == tail.last());
}

proof fn lemma_marks_grow_trans(a: Seq<Vec<bool>>, b: Seq<Vec<bool>>, c: Seq<Vec<bool>>)
    requires
        marks_grow(a, b),
        marks_grow(b, c),
    ensures
        marks_grow(a, c),
{
    assert forall|y: int, x: int| 0 <= y < a.len() && 0 <= x < a[y]@.len() && #[trigger] a[y]@[x]
        implies c[y]@[x] by {
        assert(b[y]@[x]);
    }
}

/// A route from `start` to `end` through the cells of `maze` that are not
/// `wall`, found depth first trying up, right, down and left in turn; empty
/// when the search finds none.
pub fn solve(maze: Vec<&str>, wall: char, start: Point, end: Point) -> (r: Vec<Point>)
    requires
        maze_fits_i32(maze@),
    ensures
        r@.len() > 0 ==> is_route(maze@, wall, r@, start, end),
        start == end ==> r@ == seq![start],
{
    let mut seen: Vec<Vec<bool>> = Vec::new();
    let mut y: usize = 0;
    while y < maze.len()
        invariant
            y <= maze@.len(),
            seen@.len() == y,
            forall|z: int| 0 <= z < y ==> #[trigger] seen@[z]@.len() == maze@[z].spec_bytes().len(),
        decreases maze@.len() - y,
    {
        let row = maze[y].as_bytes();
        seen.push(vec![false; row.len()]);
        y = y + 1;
    }
    let mut path: Vec<Point> = Vec::new();
    let found = walk(&maze, wall, start, &end, &mut seen, &mut path);
    proof {
        if start == end {
            assert(path@ =~= seq![start]);
        }
        if found {
            assert(path@.subrange(0, 0) == Seq::<Point>::empty());
            assert(path@.subrange(0, path@.len() as int) =~= path@);
        }
    }
    path
}

} // verus!
