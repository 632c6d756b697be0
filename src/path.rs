//! Cheapest and dearest paths across a grid, by Dijkstra's algorithm.

use crate::grid::{lemma_cell_in_range, neighbor_cells, Grid};
use vstd::prelude::*;

verus! {

/// A cell position.
#[derive(Copy, Clone, Debug, Eq, PartialEq, Hash, Structural)]
pub struct Node {
    pub x: usize,
    pub y: usize,
}

/// A path and its cost: the sum of the values of its cells, the start excluded.
#[derive(Clone, Debug)]
pub struct PathResult {
    pub total_cost: u32,
    pub nodes: Vec<Node>,
}

/// `a` and `b` share a side.
pub open spec fn adjacent(a: Node, b: Node) -> bool {
    ||| a.y == b.y && (a.x + 1 == b.x || b.x + 1 == a.x)
    ||| a.x == b.x && (a.y + 1 == b.y || b.y + 1 == a.y)
}

/// `n` lies inside `grid`.
pub open spec fn in_grid(grid: Grid, n: Node) -> bool {
    n.x < grid.width && n.y < grid.height
}

/// `nodes` walks from the top-left cell to the bottom-right one, one side at a time.
pub open spec fn is_grid_path(grid: Grid, nodes: Seq<Node>) -> bool {
    &&& nodes.len() >= 1
    &&& nodes[0] == Node { x: 0, y: 0 }
    &&& nodes.last() == Node { x: (grid.width - 1) as usize, y: (grid.height - 1) as usize }
    &&& forall|i: int| 0 <= i < nodes.len() ==> in_grid(grid, #[trigger] nodes[i])
    &&& forall|i: int| 0 <= i < nodes.len() - 1 ==> adjacent(#[trigger] nodes[i], nodes[i + 1])
}

/// The sum of the values of the cells of `nodes` after the first.
pub open spec fn path_cost(grid: Grid, nodes: Seq<Node>) -> int
    decreases nodes.len(),
{
    if nodes.len() <= 1 {
        0
    } else {
        path_cost(grid, nodes.drop_last()) + grid.cell(nodes.last().x as int, nodes.last().y as int)
    }
}

/// A cheapest path from the top-left to the bottom-right cell, where entering
/// a cell costs its value.
pub fn find_min_path(grid: &Grid) -> (r: Option<PathResult>)
    requires
        grid.wf(),
        grid.width > 0,
        grid.height > 0,
        grid.cells@.len() * 255 <= u32::MAX,
    ensures
        r matches Some(p) ==> is_grid_path(*grid, p.nodes@) && p.total_cost == path_cost(*grid, p.nodes@),
{
    dijkstra(grid, false)
}

/// A path chosen to favour high values: entering a cell costs `255 - value`
/// in the search; the reported cost is the plain sum of the values.
pub fn find_max_path(grid: &Grid) -> (r: Option<PathResult>)
    requires
        grid.wf(),
        grid.width > 0,
        grid.height > 0,
        grid.cells@.len() * 255 <= u32::MAX,
    ensures
        r matches Some(p) ==> is_grid_path(*grid, p.nodes@) && p.total_cost == path_cost(*grid, p.nodes@),
{
    dijkstra(grid, true)
}

/// The position of cell `(x, y)` in a row-major vector of rows of `width`.
fn idx(x: usize, y: usize, width: usize) -> (r: usize)
    requires
        y * width + x <= usize::MAX,
    ensures
        r == y * width + x,
{
    y * width + x
}

/// The sum of the entries of `s`.
spec fn seq_sum(s: Seq<u32>) -> nat
    decreases s.len(),
{
    if s.len() == 0 {
        0
    } else {
        seq_sum(s.drop_last()) + s.last() as nat
    }
}

proof fn lemma_sum_update(s: Seq<u32>, i: int, v: u32)
    requires
        0 <= i < s.len(),
    ensures
        seq_sum(s.update(i, v)) + s[i] == seq_sum(s) + v,
    decreases s.len(),
{
    if i == s.len() - 1 {
        assert(s.update(i, v).drop_last() =~= s.drop_last());
    } else {
        lemma_sum_update(s.drop_last(), i, v);
        assert(s.update(i, v).drop_last() =~= s.drop_last().update(i, v));
    }
}

/// Distinct cells of a grid have distinct positions.
proof fn lemma_position_unique(width: int, x1: int, y1: int, x2: int, y2: int)
    requires
        0 <= x1 < width,
        0 <= x2 < width,
        0 <= y1,
        0 <= y2,
        y1 * width + x1 == y2 * width + x2,
    ensures
        x1 == x2,
        y1 == y2,
{
    if y1 < y2 {
        assert(y1 * width + x1 < y2 * width) by (nonlinear_arith)
            requires y1 < y2, 0 <= x1 < width;
    } else if y2 < y1 {
        assert(y2 * width + x2 < y1 * width) by (nonlinear_arith)
            requires y2 < y1, 0 <= x2 < width;
    }
}

/// A queue entry `a` is served before `b`: lower cost first, then larger `y`,
/// then larger `x`.
spec fn served_before(a: (u32, usize, usize), b: (u32, usize, usize)) -> bool {
    a.0 < b.0 || (a.0 == b.0 && (a.2 > b.2 || (a.2 == b.2 && a.1 > b.1)))
}

/// The position of the queue entry to serve next.
fn best_index(queue: &Vec<(u32, usize, usize)>) -> (r: usize)
    requires
        queue@.len() > 0,
    ensures
        r < queue@.len(),
        forall|k: int| 0 <= k < queue@.len() ==> !served_before(#[trigger] queue@[k], queue@[r as int]),
{
    let mut best: usize = 0;
    let mut i: usize = 1;
    while i < queue.len()
        invariant
            1 <= i <= queue@.len(),
            best < i,
            forall|k: int| 0 <= k < i ==> !served_before(#[trigger] queue@[k], queue@[best as int]),
        decreases queue@.len() - i,
    {
        let a = queue[i];
        let b = queue[best];
        if a.0 < b.0 || (a.0 == b.0 && (a.2 > b.2 || (a.2 == b.2 && a.1 > b.1))) {
            best = i;
        }
        i += 1;
    }
    best
}

/// A vector of `n` copies of `v`.
fn filled<T: Copy>(v: T, n: usize) -> (r: Vec<T>)
    ensures
        r@ == Seq::new(n as nat, |i: int| v),
{
    let mut r: Vec<T> = Vec::with_capacity(n);
    let mut i: usize = 0;
    while i < n
        invariant
            i <= n,
            r@ == Seq::new(i as nat, |k: int| v),
        decreases n - i,
    {
        r.push(v);
        i += 1;
        assert(r@ =~= Seq::new(i as nat, |k: int| v));
    }
    r
}

/// Each neighbour of a cell lies inside the grid and shares a side with it.
proof fn lemma_neighbors_adjacent(width: int, height: int, x: usize, y: usize, j: int)
    requires
        x < width <= usize::MAX,
        y < height <= usize::MAX,
        0 <= j < neighbor_cells(width, height, x as int, y as int).len(),
    ensures
        ({
            let c = neighbor_cells(width, height, x as int, y as int)[j];
            &&& c.0 < width
            &&& c.1 < height
            &&& adjacent(Node { x, y }, Node { x: c.0, y: c.1 })
        }),
{
    let l = if x > 0 { seq![((x - 1) as usize, y)] } else { Seq::<(usize, usize)>::empty() };
    let r = if x + 1 < width { seq![((x + 1) as usize, y)] } else { Seq::<(usize, usize)>::empty() };
    let u = if y > 0 { seq![(x, (y - 1) as usize)] } else { Seq::<(usize, usize)>::empty() };
    let d = if y + 1 < height { seq![(x, (y + 1) as usize)] } else { Seq::<(usize, usize)>::empty() };
    let s = neighbor_cells(width, height, x as int, y as int);
    assert(s == l + r + u + d);
    if j < l.len() {
        assert(s[j] == l[j]);
    } else if j < l.len() + r.len() {
        assert(s[j] == r[j - l.len()]);
    } else if j < l.len() + r.len() + u.len() {
        assert(s[j] == u[j - l.len() - r.len()]);
    } else {
        assert(s[j] == d[j - l.len() - r.len() - u.len()]);
    }
}

fn dijkstra(grid: &Grid, maximize: bool) -> (r: Option<PathResult>)
    requires
        grid.wf(),
        grid.width > 0,
        grid.height > 0,
        grid.cells@.len() * 255 <= u32::MAX,
    ensures
        r matches Some(p) ==> is_grid_path(*grid, p.nodes@) && p.total_cost == path_cost(*grid, p.nodes@),
{
    let w = grid.width;
    let h = grid.height;
    assert(grid.cells@.len() == grid.cells.len());
    let n = grid.cells.len();
    let goal = Node { x: w - 1, y: h - 1 };

    let mut dist: Vec<u32> = filled(u32::MAX, n);
    let mut prev: Vec<Option<Node>> = filled(None, n);
    proof {
        lemma_cell_in_range(w as int, h as int, 0, 0);
    }
    dist.set(0, 0);
    assert forall|x: int, y: int|
        0 <= x < w && 0 <= y < h implies !((#[trigger] prev@[y * w + x]) is Some) by {
        lemma_cell_in_range(w as int, h as int, x, y);
    }
    let mut queue: Vec<(u32, usize, usize)> = Vec::new();
    queue.push((0, 0, 0));

    while queue.len() > 0
        invariant
            n == w * h,
            n == grid.cells@.len(),
            grid.wf(),
            w == grid.width,
            h == grid.height,
            w > 0,
            h > 0,
            dist@.len() == n,
            prev@.len() == n,
            forall|k: int| 0 <= k < queue@.len() ==> (#[trigger] queue@[k]).1 < w && queue@[k].2 < h,
            forall|x: int, y: int|
                0 <= x < w && 0 <= y < h && (#[trigger] prev@[y * w + x]) is Some ==> ({
                    let p = prev@[y * w + x]->Some_0;
                    p.x < w && p.y < h && adjacent(p, Node { x: x as usize, y: y as usize })
                }),
        decreases 5 * seq_sum(dist@) + queue@.len(),
    {
        let ghost m0 = 5 * seq_sum(dist@) + queue@.len();
        let bi = best_index(&queue);
        let (cost, x, y) = queue.swap_remove(bi);
        proof {
            lemma_cell_in_range(w as int, h as int, x as int, y as int);
        }
        let idx_cur = idx(x, y, w);
        if cost > dist[idx_cur] {
            continue;
        }
        if x == goal.x && y == goal.y {
            break;
        }
        let nbrs = grid.neighbors(x, y);
        let mut j: usize = 0;
        while j < nbrs.len()
            invariant
                n == w * h,
                n == grid.cells@.len(),
                grid.wf(),
                w == grid.width,
                h == grid.height,
                x < w,
                y < h,
                nbrs@ == neighbor_cells(w as int, h as int, x as int, y as int),
                dist@.len() == n,
                prev@.len() == n,
                forall|k: int| 0 <= k < queue@.len() ==> (#[trigger] queue@[k]).1 < w && queue@[k].2 < h,
                forall|xx: int, yy: int|
                    0 <= xx < w && 0 <= yy < h && (#[trigger] prev@[yy * w + xx]) is Some ==> ({
                        let p = prev@[yy * w + xx]->Some_0;
                        p.x < w && p.y < h && adjacent(p, Node { x: xx as usize, y: yy as usize })
                    }),
                5 * seq_sum(dist@) + queue@.len() < m0,
            decreases nbrs@.len() - j,
        {
            let (nx, ny) = nbrs[j];
            proof {
                lemma_neighbors_adjacent(w as int, h as int, x, y, j as int);
                lemma_cell_in_range(w as int, h as int, nx as int, ny as int);
            }
            let idx_next = idx(nx, ny, w);
            let cell_value = grid.get(nx, ny) as u32;
            let weight = if maximize {
                255u32.saturating_sub(cell_value)
            } else {
                cell_value
            };
            let next_cost = cost.saturating_add(weight);
            if next_cost < dist[idx_next] {
                proof {
                    lemma_sum_update(dist@, idx_next as int, next_cost);
                }
                dist.set(idx_next, next_cost);
                let ghost old_prev = prev@;
                prev.set(idx_next, Some(Node { x, y }));
                queue.push((next_cost, nx, ny));
                assert forall|xx: int, yy: int|
                    0 <= xx < w && 0 <= yy < h && (#[trigger] prev@[yy * w + xx]) is Some implies ({
                        let p = prev@[yy * w + xx]->Some_0;
                        p.x < w && p.y < h && adjacent(p, Node { x: xx as usize, y: yy as usize })
                    }) by {
                    lemma_cell_in_range(w as int, h as int, xx, yy);
                    if yy * w + xx == idx_next {
                        lemma_position_unique(w as int, xx, yy, nx as int, ny as int);
                    } else {
                        assert(prev@[yy * w + xx] == old_prev[yy * w + xx]);
                    }
                }
            }
            j += 1;
        }
    }

    proof {
        lemma_cell_in_range(w as int, h as int, goal.x as int, goal.y as int);
    }
    let goal_idx = idx(goal.x, goal.y, w);
    if dist[goal_idx] == u32::MAX {
        return None;
    }

    // Walk the predecessor links back from the goal; such a walk visits each
    // cell at most once, so `n` steps always reach the start.
    let mut rev: Vec<Node> = Vec::new();
    let mut cur = goal;
    let mut reached = false;
    while rev.len() < n
        invariant
            n == w * h,
            w == grid.width,
            h == grid.height,
            prev@.len() == n,
            cur.x < w,
            cur.y < h,
            rev@.len() <= n,
            rev@.len() > 0 ==> rev@[0] == goal,
            reached ==> rev@.len() > 0 && rev@.last() == (Node { x: 0, y: 0 }),
            !reached && rev@.len() > 0 ==> adjacent(cur, rev@.last()),
            rev@.len() == 0 ==> cur == goal,
            forall|i: int| 0 <= i < rev@.len() ==> in_grid(*grid, #[trigger] rev@[i]),
            forall|i: int| 0 <= i < rev@.len() - 1 ==> adjacent(#[trigger] rev@[i + 1], rev@[i]),
            forall|x: int, y: int|
                0 <= x < w && 0 <= y < h && (#[trigger] prev@[y * w + x]) is Some ==> ({
                    let p = prev@[y * w + x]->Some_0;
                    p.x < w && p.y < h && adjacent(p, Node { x: x as usize, y: y as usize })
                }),
        decreases n - rev@.len(),
    {
        if reached {
            break;
        }
        rev.push(cur);
        if cur.x == 0 && cur.y == 0 {
            reached = true;
            break;
        }
        proof {
            lemma_cell_in_range(w as int, h as int, cur.x as int, cur.y as int);
        }
        let i = idx(cur.x, cur.y, w);
        match prev[i] {
            Some(p) => {
                cur = p;
            },
            None => {
                return None;
            },
        }
    }
    if !reached {
        return None;
    }

    let len = rev.len();
    let mut nodes: Vec<Node> = Vec::with_capacity(len);
    let mut k: usize = 0;
    while k < len
        invariant
            len == rev@.len(),
            k <= len,
            nodes@ =~= Seq::new(k as nat, |i: int| rev@[len - 1 - i]),
        decreases len - k,
    {
        nodes.push(rev[len - 1 - k]);
        k += 1;
    }
    assert(is_grid_path(*grid, nodes@)) by {
        assert forall|i: int| 0 <= i < nodes@.len() - 1 implies adjacent(#[trigger] nodes@[i], nodes@[i + 1]) by {
            let i2 = len - 2 - i;
            assert(adjacent(rev@[i2 + 1], rev@[i2]));
            assert(nodes@[i] == rev@[i2 + 1]);
            assert(nodes@[i + 1] == rev@[i2]);
        }
        assert forall|i: int| 0 <= i < nodes@.len() implies in_grid(*grid, #[trigger] nodes@[i]) by {
            assert(in_grid(*grid, rev@[len - 1 - i]));
        }
    }

    let mut real_cost: u32 = 0;
    let mut t: usize = 1;
    assert(nodes@.take(1).len() == 1);
    while t < len
        invariant
            1 <= t <= len,
            len == nodes@.len(),
            len <= n,
            n == grid.cells@.len(),
            grid.wf(),
            n * 255 <= u32::MAX,
            is_grid_path(*grid, nodes@),
            real_cost == path_cost(*grid, nodes@.take(t as int)),
            real_cost <= 255 * t,
        decreases len - t,
    {
        let node = nodes[t];
        assert(in_grid(*grid, nodes@[t as int]));
        let v = grid.get(node.x, node.y);
        assert(nodes@.take(t + 1).drop_last() =~= nodes@.take(t as int));
        real_cost = real_cost + v as u32;
        t += 1;
    }
    assert(nodes@.take(len as int) =~= nodes@);
    Some(PathResult { total_cost: real_cost, nodes })
}

} // verus!
