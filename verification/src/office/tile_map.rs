//! The office tile grid, walkability and breadth-first path finding.

use std::collections::{BTreeMap, BTreeSet, VecDeque};
use vstd::prelude::*;
use vstd::set_lib::{lemma_int_range, lemma_len_subset, lemma_map_size_bound, set_int_range};
use vstd::arithmetic::div_mod::lemma_fundamental_div_mod_converse;

use crate::office::types::{tile_byte, TileType};

verus! {

pub struct TileMap {
    pub cols: i32,
    pub rows: i32,
    tiles: Vec<TileType>,
}

impl TileMap {
    /// The tiles, row-major.
    pub closed spec fn cells(&self) -> Seq<TileType> {
        self.tiles@
    }

    /// Number of columns.
    pub closed spec fn ncols(&self) -> int {
        self.cols as int
    }

    /// Number of rows.
    pub closed spec fn nrows(&self) -> int {
        self.rows as int
    }

    /// A grid whose tile vector covers every in-bounds cell and whose cell
    /// indices fit in `i32`. A grid with a negative dimension has no cells:
    /// every tile of it is void.
    pub open spec fn wf(&self) -> bool {
        (0 <= self.ncols() && 0 <= self.nrows()) ==> {
            &&& self.ncols() * self.nrows() <= self.cells().len()
            &&& self.ncols() * self.nrows() <= i32::MAX
        }
    }

    /// The tile at `(col, row)`; outside the grid everything is void.
    pub open spec fn tile(&self, col: int, row: int) -> TileType {
        if col < 0 || row < 0 || col >= self.ncols() || row >= self.nrows() {
            TileType::Void
        } else {
            self.cells()[row * self.ncols() + col]
        }
    }

    pub fn new(cols: i32, rows: i32, tiles: Vec<TileType>) -> (m: Self)
        ensures
            m.ncols() == cols,
            m.nrows() == rows,
            m.cells() == tiles@,
    {
        TileMap { cols, rows, tiles }
    }

    pub fn tile_at(&self, col: i32, row: i32) -> (t: TileType)
        requires
            self.wf(),
        ensures
            t == self.tile(col as int, row as int),
    {
        if col < 0 || row < 0 || col >= self.cols || row >= self.rows {
            return TileType::Void;
        }
        proof {
            lemma_cell_index(self.cols as int, self.rows as int, col as int, row as int);
        }
        self.tiles[(row * self.cols + col) as usize]
    }
}

/// The tile vector is read row by row: for a well-formed grid, the tile at an
/// in-bounds `(col, row)` is entry `row * cols + col` of the vector the grid
/// was made from, and every entry `i` below `cols * rows` is the tile at
/// column `i % cols`, row `i / cols`.
pub proof fn lemma_tiles_row_major(m: TileMap, col: int, row: int, i: int)
    requires
        m.wf(),
    ensures
        0 <= col < m.ncols() && 0 <= row < m.nrows() ==> m.tile(col, row) == m.cells()[row * m.ncols() + col],
        0 <= m.ncols() && 0 <= m.nrows() && 0 <= i < m.ncols() * m.nrows() ==> m.tile(i % m.ncols(), i / m.ncols())
            == m.cells()[i],
{
    let c = m.ncols();
    let r = m.nrows();
    if 0 <= c && 0 <= r && 0 <= i < c * r {
        assert(c > 0) by (nonlinear_arith)
            requires
                0 <= i < c * r,
                c >= 0,
                r >= 0,
        ;
        vstd::arithmetic::div_mod::lemma_fundamental_div_mod(i, c);
        vstd::arithmetic::div_mod::lemma_mod_pos_bound(i, c);
        assert(0 <= i / c < r) by (nonlinear_arith)
            requires
                c > 0,
                0 <= i < c * r,
                i == c * (i / c) + i % c,
                0 <= i % c < c,
        ;
        assert((i / c) * c + i % c == i) by (nonlinear_arith)
            requires
                i == c * (i / c) + i % c,
        ;
    }
}

/// In a `cols × rows` grid the row-major index of an in-bounds cell is below
/// `cols * rows`.
proof fn lemma_cell_index(cols: int, rows: int, col: int, row: int)
    requires
        0 <= col < cols,
        0 <= row < rows,
    ensures
        0 <= row * cols + col < cols * rows,
{
    assert(row * cols + col < cols * rows) by (nonlinear_arith)
        requires
            0 <= col < cols,
            0 <= row < rows,
    {
        assert(row * cols + col < row * cols + cols);
        assert(row * cols + cols == (row + 1) * cols);
        assert((row + 1) * cols <= rows * cols);
    }
    assert(0 <= row * cols) by (nonlinear_arith)
        requires
            0 <= row,
            0 <= cols,
    ;
}

/// A cell can be walked on when it is floor inside the grid and no furniture
/// blocks it.
pub open spec fn walkable(m: &TileMap, blocked: Set<(i32, i32)>, col: int, row: int) -> bool {
    &&& !(m.tile(col, row) is Wall)
    &&& !(m.tile(col, row) is Void)
    &&& !blocked.contains((col as i32, row as i32))
}

/// A cell can be walked on exactly when it lies inside the grid, its tile
/// is one of the floor styles (bytes 1 to 9: not a wall, 0, nor void, 255)
/// and no furniture blocks it.
pub proof fn lemma_walkable_cells(m: &TileMap, blocked: Set<(i32, i32)>, col: i32, row: i32)
    requires
        m.wf(),
    ensures
        walkable(m, blocked, col as int, row as int) <==> (0 <= col < m.ncols() && 0 <= row < m.nrows() && 1 <= tile_byte(
            m.cells()[row * m.ncols() + col],
        ) <= 9 && !blocked.contains((col, row))),
{
    lemma_tiles_row_major(*m, col as int, row as int, 0);
}

pub fn is_walkable(col: i32, row: i32, tile_map: &TileMap, blocked: &BTreeSet<(i32, i32)>) -> (r: bool)
    requires
        tile_map.wf(),
    ensures
        r == walkable(tile_map, blocked@, col as int, row as int),
{
    let t = tile_map.tile_at(col, row);
    if matches!(t, TileType::Wall | TileType::Void) {
        return false;
    }
    !blocked.contains(&(col, row))
}

/// Every walkable cell of the grid, row by row, left to right.
pub fn get_walkable_tiles(tile_map: &TileMap, blocked: &BTreeSet<(i32, i32)>) -> (r: Vec<(i32, i32)>)
    requires
        tile_map.wf(),
    ensures
        forall|i: int| 0 <= i < r@.len() ==> in_grid(tile_map, #[trigger] r@[i]) && walkable(
            tile_map,
            blocked@,
            r@[i].0 as int,
            r@[i].1 as int,
        ),
        forall|p: (i32, i32)|
            in_grid(tile_map, p) && walkable(tile_map, blocked@, p.0 as int, p.1 as int) ==> r@.contains(p),
        forall|i: int, j: int| 0 <= i < j < r@.len() ==> row_major_before(r@[i], r@[j]),
{
    let mut result: Vec<(i32, i32)> = Vec::new();
    if tile_map.rows <= 0 || tile_map.cols <= 0 {
        return result;
    }
    let mut row: i32 = 0;
    while row < tile_map.rows
        invariant
            tile_map.wf(),
            0 < tile_map.ncols(),
            0 < tile_map.nrows(),
            0 <= row <= tile_map.nrows(),
            row == tile_map.nrows() || row < tile_map.rows,
            tile_map.rows == tile_map.nrows(),
            tile_map.cols == tile_map.ncols(),
            forall|i: int| 0 <= i < result@.len() ==> in_grid(tile_map, #[trigger] result@[i]) && walkable(
                tile_map,
                blocked@,
                result@[i].0 as int,
                result@[i].1 as int,
            ) && result@[i].1 < row,
            forall|p: (i32, i32)|
                in_grid(tile_map, p) && p.1 < row && walkable(tile_map, blocked@, p.0 as int, p.1 as int)
                    ==> result@.contains(p),
            forall|i: int, j: int| 0 <= i < j < result@.len() ==> row_major_before(result@[i], result@[j]),
        decreases tile_map.nrows() - row,
    {
        let mut col: i32 = 0;
        while col < tile_map.cols
            invariant
                tile_map.wf(),
                0 < tile_map.ncols(),
                0 < tile_map.nrows(),
                0 <= row < tile_map.nrows(),
                0 <= col <= tile_map.ncols(),
                tile_map.rows == tile_map.nrows(),
                tile_map.cols == tile_map.ncols(),
                forall|i: int| 0 <= i < result@.len() ==> in_grid(tile_map, #[trigger] result@[i]) && walkable(
                    tile_map,
                    blocked@,
                    result@[i].0 as int,
                    result@[i].1 as int,
                ) && row_major_before(result@[i], (col, row)),
                forall|p: (i32, i32)|
                    in_grid(tile_map, p) && row_major_before(p, (col, row)) && walkable(
                        tile_map,
                        blocked@,
                        p.0 as int,
                        p.1 as int,
                    ) ==> result@.contains(p),
                forall|i: int, j: int| 0 <= i < j < result@.len() ==> row_major_before(result@[i], result@[j]),
            decreases tile_map.ncols() - col,
        {
            if is_walkable(col, row, tile_map, blocked) {
                let ghost before = result@;
                result.push((col, row));
                proof {
                    assert forall|p: (i32, i32)|
                        in_grid(tile_map, p) && row_major_before(p, ((col + 1) as i32, row)) && walkable(
                            tile_map,
                            blocked@,
                            p.0 as int,
                            p.1 as int,
                        ) implies result@.contains(p) by {
                        if p == (col, row) {
                            assert(result@[result@.len() - 1] == p);
                        } else {
                            assert(before.contains(p));
                            let k = choose|k: int| 0 <= k < before.len() && before[k] == p;
                            assert(result@[k] == p);
                        }
                    }
                }
            } else {
                proof {
                    assert forall|p: (i32, i32)|
                        in_grid(tile_map, p) && row_major_before(p, ((col + 1) as i32, row)) && walkable(
                            tile_map,
                            blocked@,
                            p.0 as int,
                            p.1 as int,
                        ) implies result@.contains(p) by {
                        if p != (col, row) {
                        }
                    }
                }
            }
            col = col + 1;
        }
        row = row + 1;
    }
    result
}

/// Whether `p` lies inside the grid.
pub open spec fn in_grid(m: &TileMap, p: (i32, i32)) -> bool {
    0 <= p.0 < m.ncols() && 0 <= p.1 < m.nrows()
}

/// Row-major order: earlier rows first, then earlier columns.
pub open spec fn row_major_before(a: (i32, i32), b: (i32, i32)) -> bool {
    a.1 < b.1 || (a.1 == b.1 && a.0 < b.0)
}

// ── Breadth-first path finding ───────────────────────────────────────────────

/// `a` and `b` are 4-neighbours.
pub open spec fn adjacent(a: (i32, i32), b: (i32, i32)) -> bool {
    ||| (b.0 == a.0 && b.1 as int == a.1 as int - 1)
    ||| (b.0 == a.0 && b.1 as int == a.1 as int + 1)
    ||| (b.1 == a.1 && b.0 as int == a.0 as int - 1)
    ||| (b.1 == a.1 && b.0 as int == a.0 as int + 1)
}

/// The cell a walk stood on before its `i`-th step.
pub open spec fn walk_prev(start: (i32, i32), path: Seq<(i32, i32)>, i: int) -> (i32, i32) {
    if i == 0 {
        start
    } else {
        path[i - 1]
    }
}

/// `path` is a walk from `start`: every step goes to a walkable 4-neighbour of
/// the cell before it. (The start cell itself need not be walkable.)
pub open spec fn is_walk(m: &TileMap, blocked: Set<(i32, i32)>, start: (i32, i32), path: Seq<(i32, i32)>) -> bool {
    forall|i: int|
        0 <= i < path.len() ==> adjacent(walk_prev(start, path, i), #[trigger] path[i]) && walkable(
            m,
            blocked,
            path[i].0 as int,
            path[i].1 as int,
        )
}

/// Some walk leads from `start` to `end`.
pub open spec fn reachable(m: &TileMap, blocked: Set<(i32, i32)>, start: (i32, i32), end: (i32, i32)) -> bool {
    exists|path: Seq<(i32, i32)>|
        #![trigger is_walk(m, blocked, start, path)]
        is_walk(m, blocked, start, path) && path.len() > 0 && path.last() == end
}

/// The `k`-th of the four neighbour offsets, in search order: up, down, left, right.
spec fn neighbour(p: (i32, i32), k: int) -> (i32, i32) {
    if k == 0 {
        (p.0, (p.1 - 1) as i32)
    } else if k == 1 {
        (p.0, (p.1 + 1) as i32)
    } else if k == 2 {
        ((p.0 - 1) as i32, p.1)
    } else {
        ((p.0 + 1) as i32, p.1)
    }
}

/// Every cell the search can mark: the grid's cells and the start.
spec fn search_space(m: &TileMap, start: (i32, i32)) -> Set<(i32, i32)> {
    set_int_range(0, m.ncols() * m.nrows()).map(|i: int| ((i % m.ncols()) as i32, (i / m.ncols()) as i32)).insert(
        start,
    )
}

proof fn lemma_search_space(m: &TileMap, start: (i32, i32))
    requires
        m.wf(),
        0 <= m.ncols(),
        0 <= m.nrows(),
    ensures
        search_space(m, start).finite(),
        search_space(m, start).len() <= m.ncols() * m.nrows() + 1,
        forall|p: (i32, i32)| #[trigger] in_grid(m, p) ==> search_space(m, start).contains(p),
{
    let n = m.ncols() * m.nrows();
    assert(0 <= n) by (nonlinear_arith)
        requires
            0 <= m.ncols(),
            0 <= m.nrows(),
            n == m.ncols() * m.nrows(),
    ;
    lemma_int_range(0, n);
    let f = |i: int| ((i % m.ncols()) as i32, (i / m.ncols()) as i32);
    let g = set_int_range(0, n).map(f);
    lemma_map_size_bound(set_int_range(0, n), g, f);
    assert forall|p: (i32, i32)| #[trigger] in_grid(m, p) implies search_space(m, start).contains(p) by {
        let i = p.1 * m.ncols() + p.0;
        lemma_cell_index(m.ncols(), m.nrows(), p.0 as int, p.1 as int);
        lemma_fundamental_div_mod_converse(i, m.ncols(), p.1 as int, p.0 as int);
        assert(set_int_range(0, n).contains(i));
        assert(f(i) == p);
        assert(g.contains(p));
    }
}

/// Once every marked cell has had its walkable neighbours marked, every walk
/// from a marked start stays on marked cells.
proof fn lemma_closed_covers_walk(
    m: &TileMap,
    blocked: Set<(i32, i32)>,
    start: (i32, i32),
    visited: Set<(i32, i32)>,
    path: Seq<(i32, i32)>,
    i: int,
)
    requires
        visited.contains(start),
        forall|v: (i32, i32), n: (i32, i32)|
            #![trigger adjacent(v, n)]
            visited.contains(v) && adjacent(v, n) && walkable(m, blocked, n.0 as int, n.1 as int)
                ==> visited.contains(n),
        is_walk(m, blocked, start, path),
        0 <= i < path.len(),
    ensures
        visited.contains(path[i]),
    decreases i,
{
    if i > 0 {
        lemma_closed_covers_walk(m, blocked, start, visited, path, i - 1);
    }
    assert(adjacent(walk_prev(start, path, i), path[i]));
}

/// The breadth-first layer bound: while every cell marked but not yet
/// expanded is at least `level` steps out, and each expanded cell's walkable
/// neighbours are marked at most one step further, the `i`-th cell of any walk
/// from the start (for `i` up to `level`) is marked no more than `i` steps out.
proof fn lemma_layer_bound(
    m: &TileMap,
    blocked: Set<(i32, i32)>,
    start: (i32, i32),
    visited: Set<(i32, i32)>,
    expanded: Set<(i32, i32)>,
    dist: Map<(i32, i32), nat>,
    level: nat,
    path: Seq<(i32, i32)>,
    i: int,
)
    requires
        visited.contains(start),
        dist.dom() == visited,
        dist[start] == 0,
        forall|v: (i32, i32)| #[trigger] visited.contains(v) && !expanded.contains(v) ==> dist[v] >= level,
        forall|v: (i32, i32), n: (i32, i32)|
            #![trigger adjacent(v, n)]
            expanded.contains(v) && adjacent(v, n) && walkable(m, blocked, n.0 as int, n.1 as int) ==> visited.contains(n)
                && dist[n] <= dist[v] + 1,
        is_walk(m, blocked, start, path),
        1 <= i <= path.len(),
        i <= level,
    ensures
        visited.contains(path[i - 1]),
        dist[path[i - 1]] <= i,
    decreases i,
{
    let y = walk_prev(start, path, i - 1);
    if i > 1 {
        lemma_layer_bound(m, blocked, start, visited, expanded, dist, level, path, i - 1);
        assert(y == path[i - 2]);
    }
    assert(visited.contains(y) && dist[y] < level);
    assert(expanded.contains(y));
    assert(adjacent(y, path[i - 1]));
}

/// Shortest-route search on the 4-connected grid. Returns the cells to step
/// on, excluding `start` and ending at `end`; empty when `start == end`, when
/// `end` is not walkable, or when no walk reaches `end`. A route found is no
/// longer than any walk from `start` to `end`.
pub fn find_path(
    start_col: i32,
    start_row: i32,
    end_col: i32,
    end_row: i32,
    tile_map: &TileMap,
    blocked: &BTreeSet<(i32, i32)>,
) -> (path: Vec<(i32, i32)>)
    requires
        tile_map.wf(),
        i32::MIN < start_col < i32::MAX,
        i32::MIN < start_row < i32::MAX,
    ensures
        ((start_col == end_col && start_row == end_row) || !walkable(
            tile_map,
            blocked@,
            end_col as int,
            end_row as int,
        )) ==> path@.len() == 0,
        path@.len() > 0 ==> is_walk(tile_map, blocked@, (start_col, start_row), path@) && path@.last() == (
        end_col,
        end_row,
        ),
        path@.len() == 0 && !(start_col == end_col && start_row == end_row) ==> !reachable(
            tile_map,
            blocked@,
            (start_col, start_row),
            (end_col, end_row),
        ),
        path@.len() > 0 ==> forall|p: Seq<(i32, i32)>|
            #[trigger] is_walk(tile_map, blocked@, (start_col, start_row), p) && p.len() > 0 && p.last() == (
                end_col,
                end_row,
            ) ==> path@.len() <= p.len(),
{
    if start_col == end_col && start_row == end_row {
        return Vec::new();
    }
    if !is_walkable(end_col, end_row, tile_map, blocked) {
        let ghost start = (start_col, start_row);
        let ghost end = (end_col, end_row);
        proof {
            assert forall|p: Seq<(i32, i32)>|
                is_walk(tile_map, blocked@, start, p) && p.len() > 0 implies p.last() != end by {
                assert(walkable(tile_map, blocked@, p[p.len() - 1].0 as int, p[p.len() - 1].1 as int));
            }
        }
        return Vec::new();
    }
    let start = (start_col, start_row);
    let end = (end_col, end_row);
    let mut visited: BTreeSet<(i32, i32)> = BTreeSet::new();
    let mut parent: BTreeMap<(i32, i32), (i32, i32)> = BTreeMap::new();
    let mut queue: VecDeque<(i32, i32)> = VecDeque::new();
    let ghost mut expanded: Set<(i32, i32)> = Set::empty();
    let ghost mut dist: Map<(i32, i32), nat> = Map::empty().insert(start, 0nat);
    let ghost mut level: nat = 0;

    visited.insert(start);
    queue.push_back(start);
    proof {
        assert(0 < tile_map.ncols() && 0 < tile_map.nrows());
        lemma_search_space(tile_map, start);
        assert(queue@[0] == start);
        assert forall|v: (i32, i32)| #[trigger] visited@.contains(v) implies expanded.contains(v) || queue@.contains(v) by {
            assert(v == start);
        }
    }

    loop
        invariant_except_break
            forall|q: (i32, i32)| #[trigger] queue@.contains(q) ==> visited@.contains(q) && !expanded.contains(q),
            queue@.no_duplicates(),
            forall|v: (i32, i32)| #[trigger] visited@.contains(v) ==> expanded.contains(v) || queue@.contains(v),
            forall|a: int, b: int| 0 <= a < b < queue@.len() ==> dist[#[trigger] queue@[a]] <= dist[#[trigger] queue@[b]],
            forall|a: int| 0 <= a < queue@.len() ==> level <= dist[#[trigger] queue@[a]] <= level + 1,
        invariant
            tile_map.wf(),
            0 < tile_map.ncols(),
            0 < tile_map.nrows(),
            forall|v: (i32, i32)| #[trigger] expanded.contains(v) ==> dist[v] <= level,
            forall|v: (i32, i32)| #[trigger] visited@.contains(v) ==> dist[v] <= level + 1,
            forall|v: (i32, i32)| #[trigger] visited@.contains(v) && !expanded.contains(v) ==> dist[v] >= level,
            forall|v: (i32, i32), n: (i32, i32)|
            #![trigger adjacent(v, n)]
                expanded.contains(v) && adjacent(v, n) && walkable(tile_map, blocked@, n.0 as int, n.1 as int)
                    ==> visited@.contains(n) && dist[n] <= dist[v] + 1,
            start == (start_col, start_row),
            end == (end_col, end_row),
            start != end,
            i32::MIN < start_col < i32::MAX,
            i32::MIN < start_row < i32::MAX,
            search_space(tile_map, start).finite(),
            search_space(tile_map, start).len() <= tile_map.ncols() * tile_map.nrows() + 1,
            forall|p: (i32, i32)| #[trigger] in_grid(tile_map, p) ==> search_space(tile_map, start).contains(p),
            visited@.contains(start),
            forall|v: (i32, i32)|
                #[trigger] visited@.contains(v) && v != start ==> walkable(tile_map, blocked@, v.0 as int, v.1 as int),
            expanded.subset_of(visited@),
            !expanded.contains(end),
            dist.dom() == visited@,
            dist[start] == 0,
            forall|k: (i32, i32)| #[trigger] parent@.contains_key(k) <==> visited@.contains(k) && k != start,
            forall|k: (i32, i32)|
                #[trigger] parent@.contains_key(k) ==> visited@.contains(parent@[k]) && adjacent(parent@[k], k)
                    && dist[k] == dist[parent@[k]] + 1,
        ensures
            visited@.contains(start),
            forall|v: (i32, i32)|
                #[trigger] visited@.contains(v) && v != start ==> walkable(tile_map, blocked@, v.0 as int, v.1 as int),
            dist.dom() == visited@,
            dist[start] == 0,
            forall|k: (i32, i32)| #[trigger] parent@.contains_key(k) <==> visited@.contains(k) && k != start,
            forall|k: (i32, i32)|
                #[trigger] parent@.contains_key(k) ==> visited@.contains(parent@[k]) && adjacent(parent@[k], k)
                    && dist[k] == dist[parent@[k]] + 1,
            !visited@.contains(end) ==> forall|v: (i32, i32), n: (i32, i32)|
            #![trigger adjacent(v, n)]
                visited@.contains(v) && adjacent(v, n) && walkable(tile_map, blocked@, n.0 as int, n.1 as int)
                    ==> visited@.contains(n),
            visited@.contains(end) ==> dist[end] == level,
            forall|v: (i32, i32)| #[trigger] visited@.contains(v) && !expanded.contains(v) ==> dist[v] >= level,
            forall|v: (i32, i32), n: (i32, i32)|
            #![trigger adjacent(v, n)]
                expanded.contains(v) && adjacent(v, n) && walkable(tile_map, blocked@, n.0 as int, n.1 as int)
                    ==> visited@.contains(n) && dist[n] <= dist[v] + 1,
        decreases tile_map.ncols() * tile_map.nrows() + 1 - expanded.len(),
    {
        proof {
            assert(expanded.subset_of(search_space(tile_map, start))) by {
                assert forall|v: (i32, i32)| expanded.contains(v) implies search_space(tile_map, start).contains(v) by {
                    if v != start {
                        assert(visited@.contains(v));
                        assert(in_grid(tile_map, v));
                    }
                }
            }
            lemma_len_subset(expanded, search_space(tile_map, start));
        }
        let ghost q0 = queue@;
        let popped = queue.pop_front();
        match popped {
            None => {
                proof {
                    assert forall|v: (i32, i32)| visited@.contains(v) implies expanded.contains(v) by {
                        if !expanded.contains(v) {
                            assert(queue@.contains(v));
                        }
                    }
                    assert forall|v: (i32, i32), n: (i32, i32)|
                        #![trigger adjacent(v, n)]
                        visited@.contains(v) && adjacent(v, n) && walkable(tile_map, blocked@, n.0 as int, n.1 as int)
                            implies visited@.contains(n) by {
                        assert(expanded.contains(v));
                    }
                }
                break;
            },
            Some(cur) => {
                proof {
                    assert(q0[0] == cur);
                    assert(q0.contains(cur));
                    let old_level = level;
                    level = dist[cur];
                    assert(old_level <= level);
                    assert forall|a: int, b: int| 0 <= a < b < queue@.len() implies dist[#[trigger] queue@[a]]
                        <= dist[#[trigger] queue@[b]] by {
                        assert(queue@[a] == q0[a + 1]);
                        assert(queue@[b] == q0[b + 1]);
                    }
                    assert forall|a: int| 0 <= a < queue@.len() implies level <= dist[#[trigger] queue@[a]] <= level
                        + 1 by {
                        assert(queue@[a] == q0[a + 1]);
                        assert(dist[q0[0]] <= dist[q0[a + 1]]);
                    }
                    assert forall|v: (i32, i32)| #[trigger] visited@.contains(v) && !expanded.contains(v) implies dist[v]
                        >= level by {
                        if v != cur {
                            assert(q0.contains(v));
                            let j = choose|j: int| 0 <= j < q0.len() && q0[j] == v;
                            if j > 0 {
                                assert(dist[q0[0]] <= dist[q0[j]]);
                            }
                        }
                    }
                }
                if cur.0 == end.0 && cur.1 == end.1 {
                    break;
                }
                proof {
                    assert(!queue@.contains(cur)) by {
                        if queue@.contains(cur) {
                            let j = choose|j: int| 0 <= j < queue@.len() && queue@[j] == cur;
                            assert(q0[j + 1] == cur);
                        }
                    }
                    assert forall|v: (i32, i32)| #[trigger] visited@.contains(v) implies expanded.contains(v)
                        || queue@.contains(v) || v == cur by {
                        if !expanded.contains(v) && v != cur {
                            assert(q0.contains(v));
                            let j = choose|j: int| 0 <= j < q0.len() && q0[j] == v;
                            assert(j > 0);
                            assert(queue@[j - 1] == v);
                        }
                    }
                    assert forall|q: (i32, i32)| #[trigger] queue@.contains(q) implies visited@.contains(q)
                        && !expanded.contains(q) by {
                        let j = choose|j: int| 0 <= j < queue@.len() && queue@[j] == q;
                        assert(q0[j + 1] == q);
                        assert(q0.contains(q));
                    }
                }
                let mut k: usize = 0;
                while k < 4
                    invariant
                        0 <= k <= 4,
                        tile_map.wf(),
                        0 < tile_map.ncols(),
                        0 < tile_map.nrows(),
                        start == (start_col, start_row),
                        i32::MIN < start_col < i32::MAX,
                        i32::MIN < start_row < i32::MAX,
                        visited@.contains(cur),
                        cur == start || walkable(tile_map, blocked@, cur.0 as int, cur.1 as int),
                        visited@.contains(start),
                        forall|v: (i32, i32)|
                            #[trigger] visited@.contains(v) && v != start ==> walkable(
                                tile_map,
                                blocked@,
                                v.0 as int,
                                v.1 as int,
                            ),
                        expanded.subset_of(visited@),
                        !expanded.contains(cur),
                        !queue@.contains(cur),
                        forall|q: (i32, i32)| #[trigger] queue@.contains(q) ==> visited@.contains(q) && !expanded.contains(q),
                        queue@.no_duplicates(),
                        forall|v: (i32, i32)|
                            #[trigger] visited@.contains(v) ==> expanded.contains(v) || queue@.contains(v) || v == cur,
                        forall|v: (i32, i32), n: (i32, i32)|
            #![trigger adjacent(v, n)]
                            expanded.contains(v) && adjacent(v, n) && walkable(tile_map, blocked@, n.0 as int, n.1 as int)
                                ==> visited@.contains(n) && dist[n] <= dist[v] + 1,
                        dist[cur] == level,
                        forall|v: (i32, i32)| #[trigger] expanded.contains(v) ==> dist[v] <= level,
                        forall|v: (i32, i32)| #[trigger] visited@.contains(v) ==> dist[v] <= level + 1,
                        forall|a: int, b: int|
                            0 <= a < b < queue@.len() ==> dist[#[trigger] queue@[a]] <= dist[#[trigger] queue@[b]],
                        forall|a: int| 0 <= a < queue@.len() ==> level <= dist[#[trigger] queue@[a]] <= level + 1,
                        forall|j: int|
                            0 <= j < k && #[trigger] walkable(
                                tile_map,
                                blocked@,
                                neighbour(cur, j).0 as int,
                                neighbour(cur, j).1 as int,
                            ) ==> visited@.contains(neighbour(cur, j)),
                        dist.dom() == visited@,
                        dist[start] == 0,
                        forall|q: (i32, i32)| #[trigger] parent@.contains_key(q) <==> visited@.contains(q) && q != start,
                        forall|q: (i32, i32)|
                            #[trigger] parent@.contains_key(q) ==> visited@.contains(parent@[q]) && adjacent(
                                parent@[q],
                                q,
                            ) && dist[q] == dist[parent@[q]] + 1,
                    decreases 4 - k,
                {
                    proof {
                        if cur != start {
                            assert(in_grid(tile_map, cur));
                        }
                    }
                    let next = if k == 0 {
                        (cur.0, cur.1 - 1)
                    } else if k == 1 {
                        (cur.0, cur.1 + 1)
                    } else if k == 2 {
                        (cur.0 - 1, cur.1)
                    } else {
                        (cur.0 + 1, cur.1)
                    };
                    assert(next == neighbour(cur, k as int));
                    if !visited.contains(&next) && is_walkable(next.0, next.1, tile_map, blocked) {
                        let ghost q_old = queue@;
                        visited.insert(next);
                        parent.insert(next, cur);
                        queue.push_back(next);
                        proof {
                            let old_dist = dist;
                            dist = dist.insert(next, dist[cur] + 1);
                            assert(next != start);
                            assert(queue@ == q_old.push(next));
                            assert forall|a: int, b: int| 0 <= a < b < queue@.len() implies dist[#[trigger] queue@[a]]
                                <= dist[#[trigger] queue@[b]] by {
                                assert(q_old.contains(queue@[a]));
                                assert(queue@[a] != next);
                                if b < q_old.len() {
                                    assert(queue@[b] != next) by {
                                        assert(q_old.contains(queue@[b]));
                                    }
                                    assert(old_dist[q_old[a]] <= old_dist[q_old[b]]);
                                } else {
                                    assert(old_dist[q_old[a]] <= level + 1);
                                }
                            }
                            assert forall|a: int, b: int| 0 <= a < b < queue@.len() implies queue@[a] != queue@[b] by {
                                if b == queue@.len() - 1 {
                                    assert(q_old.contains(queue@[a]));
                                }
                            }
                            assert forall|q: (i32, i32)| #[trigger] queue@.contains(q) implies visited@.contains(q)
                                && !expanded.contains(q) by {
                                if q != next {
                                    assert(q_old.contains(q));
                                }
                            }
                            assert forall|v: (i32, i32)| #[trigger] visited@.contains(v) implies expanded.contains(v)
                                || queue@.contains(v) || v == cur by {
                                if v == next {
                                    assert(queue@[queue@.len() - 1] == next);
                                } else if !expanded.contains(v) && v != cur {
                                    assert(q_old.contains(v));
                                    let j = choose|j: int| 0 <= j < q_old.len() && q_old[j] == v;
                                    assert(queue@[j] == v);
                                }
                            }
                            assert(!queue@.contains(cur)) by {
                                if queue@.contains(cur) {
                                    let j = choose|j: int| 0 <= j < queue@.len() && queue@[j] == cur;
                                    if j < q_old.len() {
                                        assert(q_old[j] == cur);
                                    }
                                }
                            }
                        }
                    }
                    k = k + 1;
                }
                proof {
                    let old_expanded = expanded;
                    expanded = expanded.insert(cur);
                    assert forall|v: (i32, i32), n: (i32, i32)|
            #![trigger adjacent(v, n)]
                        expanded.contains(v) && adjacent(v, n) && walkable(tile_map, blocked@, n.0 as int, n.1 as int)
                            implies visited@.contains(n) && dist[n] <= dist[v] + 1 by {
                        if v == cur {
                            if n == neighbour(cur, 0) {
                            } else if n == neighbour(cur, 1) {
                            } else if n == neighbour(cur, 2) {
                            } else {
                                assert(n == neighbour(cur, 3));
                            }
                        } else {
                            assert(old_expanded.contains(v));
                        }
                    }
                    assert(old_expanded.subset_of(search_space(tile_map, start)));
                    lemma_len_subset(old_expanded, search_space(tile_map, start));
                    assert(expanded.len() == old_expanded.len() + 1);
                    assert(expanded.subset_of(search_space(tile_map, start))) by {
                        assert forall|v: (i32, i32)| expanded.contains(v) implies search_space(tile_map, start).contains(v) by {
                            if v != start {
                                assert(visited@.contains(v));
                                assert(in_grid(tile_map, v));
                            }
                        }
                    }
                    lemma_len_subset(expanded, search_space(tile_map, start));
                    assert forall|v: (i32, i32)| #[trigger] visited@.contains(v) && !expanded.contains(v) implies dist[v]
                        >= level by {
                        assert(queue@.contains(v));
                        let j = choose|j: int| 0 <= j < queue@.len() && queue@[j] == v;
                    }
                }
            },
        }
    }

    if !visited.contains(&end) {
        proof {
            assert forall|p: Seq<(i32, i32)>|
                is_walk(tile_map, blocked@, start, p) && p.len() > 0 implies p.last() != end by {
                lemma_closed_covers_walk(tile_map, blocked@, start, visited@, p, p.len() - 1);
            }
        }
        return Vec::new();
    }

    proof {
        assert forall|p: Seq<(i32, i32)>|
            #[trigger] is_walk(tile_map, blocked@, start, p) && p.len() > 0 && p.last() == end implies dist[end]
            <= p.len() by {
            if p.len() < level {
                lemma_layer_bound(tile_map, blocked@, start, visited@, expanded, dist, level, p, p.len() as int);
            }
        }
    }
    // Walk the parent links back from the end, then reverse.
    let mut back: Vec<(i32, i32)> = Vec::new();
    let mut node = end;
    while !(node.0 == start.0 && node.1 == start.1)
        invariant
            visited@.contains(node),
            visited@.contains(start),
            dist.dom() == visited@,
            dist[start] == 0,
            forall|v: (i32, i32)|
                #[trigger] visited@.contains(v) && v != start ==> walkable(tile_map, blocked@, v.0 as int, v.1 as int),
            forall|q: (i32, i32)| #[trigger] parent@.contains_key(q) <==> visited@.contains(q) && q != start,
            forall|q: (i32, i32)|
                #[trigger] parent@.contains_key(q) ==> visited@.contains(parent@[q]) && adjacent(parent@[q], q)
                    && dist[q] == dist[parent@[q]] + 1,
            back@.len() == 0 ==> node == end,
            back@.len() > 0 ==> back@[0] == end && adjacent(node, back@.last()),
            forall|i: int|
                0 <= i < back@.len() ==> #[trigger] walkable(
                    tile_map,
                    blocked@,
                    back@[i].0 as int,
                    back@[i].1 as int,
                ),
            forall|i: int| 0 <= i < back@.len() - 1 ==> adjacent(#[trigger] back@[i + 1], back@[i]),
            end != start,
            back@.len() + dist[node] == dist[end],
        decreases dist[node],
    {
        back.push(node);
        let p = *parent.get(&node).unwrap();
        node = p;
    }
    let mut path: Vec<(i32, i32)> = Vec::new();
    let mut i: usize = back.len();
    while i > 0
        invariant
            i <= back@.len(),
            back@.len() > 0,
            back@[0] == end,
            adjacent(start, back@.last()),
            path@.len() == back@.len() - i,
            back@.len() == dist[end],
            forall|j: int| 0 <= j < path@.len() ==> path@[j] == back@[back@.len() - 1 - j],
            forall|j: int|
                0 <= j < back@.len() ==> #[trigger] walkable(
                    tile_map,
                    blocked@,
                    back@[j].0 as int,
                    back@[j].1 as int,
                ),
            forall|j: int| 0 <= j < back@.len() - 1 ==> adjacent(#[trigger] back@[j + 1], back@[j]),
        decreases i,
    {
        i = i - 1;
        path.push(back[i]);
    }
    proof {
        assert forall|j: int| 0 <= j < path@.len() implies adjacent(walk_prev(start, path@, j), #[trigger] path@[j])
            && walkable(tile_map, blocked@, path@[j].0 as int, path@[j].1 as int) by {
            let bj = back@.len() - 1 - j;
            assert(path@[j] == back@[bj]);
            if j > 0 {
                assert(path@[j - 1] == back@[bj + 1]);
            }
        }
        assert(path@.last() == back@[0]);
    }
    path
}

} // verus!
