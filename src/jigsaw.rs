//! The puzzle's tiles as a graph: grid coordinates, connections, ownership,
//! and the order in which tiles were last touched.
use std::collections::HashSet;
use vstd::prelude::*;
use crate::connectivity::{
    closed_under_links, group_of, lemma_closed_holds_reachable, lemma_group_same_for_every_member,
    lemma_reach_self, lemma_reach_step, linked, links_in_range, links_symmetric, reachable,
};
use crate::interop::{GridSize, Id};

verus! {

/// A cell of the grid: column `x`, row `y`.
#[derive(Clone, Copy, Debug, PartialEq, Eq, Hash, Structural)]
pub struct GridPos {
    pub x: usize,
    pub y: usize,
}

/// One tile: where it belongs in the grid and who holds it.
///
/// `last_interaction_time` orders tiles by when they were last grabbed; the
/// most recent one wins hit tests and is drawn on top.
pub struct JigsawTile {
    pub last_interaction_time: u64,
    pub grabbed_by: Option<Id>,
    pub connected_to: Vec<usize>,
    pub puzzle_pos: GridPos,
}

pub struct Jigsaw {
    pub pieces: GridSize,
    pub tiles: Vec<JigsawTile>,
}

/// The grid cell of tile `i` in a grid with `cols` columns.
pub open spec fn cell_of(i: int, cols: int) -> GridPos {
    GridPos { x: (i % cols) as usize, y: (i / cols) as usize }
}

/// Manhattan distance 1 between grid cells.
pub open spec fn grid_adjacent(a: GridPos, b: GridPos) -> bool {
    ||| a.x == b.x && (a.y + 1 == b.y || b.y + 1 == a.y)
    ||| a.y == b.y && (a.x + 1 == b.x || b.x + 1 == a.x)
}

/// Tiles not yet visited.
pub open spec fn unvisited(v: Seq<bool>) -> nat
    decreases v.len(),
{
    if v.len() == 0 {
        0
    } else {
        unvisited(v.drop_last()) + if v.last() {
            0nat
        } else {
            1nat
        }
    }
}

proof fn lemma_visit(v: Seq<bool>, i: int)
    requires
        0 <= i < v.len(),
        !v[i],
    ensures
        unvisited(v.update(i, true)) + 1 == unvisited(v),
    decreases v.len(),
{
    let w = v.update(i, true);
    if i == v.len() - 1 {
        assert(w.drop_last() =~= v.drop_last());
    } else {
        assert(w.drop_last() =~= v.drop_last().update(i, true));
        lemma_visit(v.drop_last(), i);
    }
}

impl Jigsaw {
    /// Each tile's connection list.
    pub open spec fn links(&self) -> Seq<Seq<usize>> {
        self.tiles@.map_values(|t: JigsawTile| t.connected_to@)
    }

    pub open spec fn wf(&self) -> bool {
        &&& self.pieces.x >= 1
        &&& self.pieces.y >= 1
        &&& self.pieces.x * self.pieces.y <= isize::MAX
        &&& self.tiles@.len() == self.pieces.x * self.pieces.y
        &&& forall|i: int|
            0 <= i < self.tiles@.len() ==> (#[trigger] self.tiles@[i]).puzzle_pos == cell_of(
                i,
                self.pieces.x as int,
            )
        &&& links_in_range(self.links())
        &&& links_symmetric(self.links())
    }

    /// The tiles of a `pieces.x` by `pieces.y` grid, in row order, none of
    /// them connected or held.
    pub fn generate(pieces: GridSize) -> (r: Jigsaw)
        requires
            pieces.x >= 1,
            pieces.y >= 1,
            pieces.x * pieces.y <= isize::MAX,
        ensures
            r.wf(),
            r.pieces == pieces,
            forall|i: int|
                0 <= i < r.tiles@.len() ==> {
                    &&& (#[trigger] r.tiles@[i]).connected_to@.len() == 0
                    &&& r.tiles@[i].grabbed_by.is_none()
                    &&& r.tiles@[i].last_interaction_time == 0
                },
    {
        let n = pieces.x * pieces.y;
        let mut tiles: Vec<JigsawTile> = Vec::new();
        let mut i: usize = 0;
        while i < n
            invariant
                n == pieces.x * pieces.y,
                pieces.x >= 1,
                i <= n,
                tiles@.len() == i,
                forall|k: int|
                    0 <= k < i ==> {
                        &&& (#[trigger] tiles@[k]).connected_to@.len() == 0
                        &&& tiles@[k].grabbed_by.is_none()
                        &&& tiles@[k].last_interaction_time == 0
                        &&& tiles@[k].puzzle_pos == cell_of(k, pieces.x as int)
                    },
            decreases n - i,
        {
            tiles.push(
                JigsawTile {
                    last_interaction_time: 0,
                    grabbed_by: None,
                    connected_to: Vec::new(),
                    puzzle_pos: GridPos { x: i % pieces.x, y: i / pieces.x },
                },
            );
            i = i + 1;
        }
        let r = Jigsaw { pieces, tiles };
        assert forall|a: int, b: int| #[trigger] linked(r.links(), a, b) implies false by {
            assert(r.links()[a].len() == 0);
        }
        r
    }

    /// Every tile of the rigid group of `tile`, each once, `tile` first.
    ///
    /// Walks the connections with an explicit work list and a visited mark, so
    /// cycles are harmless and the depth of the walk is not bounded by the stack.
    pub fn connected_list(&self, tile: usize) -> (r: Vec<usize>)
        requires
            self.wf(),
            tile < self.tiles@.len(),
        ensures
            r@.to_set() == group_of(self.links(), tile as int),
            r@.no_duplicates(),
            r@.len() >= 1,
            r@[0] == tile,
            forall|i: int| 0 <= i < r@.len() ==> (#[trigger] r@[i]) < self.tiles@.len(),
    {
        let ghost adj = self.links();
        let n = self.tiles.len();
        let mut visited: Vec<bool> = Vec::new();
        let mut i: usize = 0;
        while i < n
            invariant
                i <= n,
                visited@.len() == i,
                forall|k: int| 0 <= k < i ==> !(#[trigger] visited@[k]),
            decreases n - i,
        {
            visited.push(false);
            i = i + 1;
        }
        proof {
            lemma_visit(visited@, tile as int);
            lemma_reach_self(adj, tile as int);
        }
        visited.set(tile, true);
        let mut result: Vec<usize> = Vec::new();
        result.push(tile);
        let mut stack: Vec<usize> = Vec::new();
        stack.push(tile);
        assert(result@[0] == tile);
        assert(result@.contains(tile));
        assert forall|u: int| 0 <= u < n implies (#[trigger] visited@[u] <==> result@.contains(u as usize)) by {
            if result@.contains(u as usize) {
                let q = choose|q: int| 0 <= q < result@.len() && result@[q] == u as usize;
                assert(q == 0);
            }
        }
        while stack.len() > 0
            invariant
                adj == self.links(),
                self.wf(),
                n == adj.len(),
                tile < n,
                visited@.len() == n,
                forall|u: int| 0 <= u < n ==> (#[trigger] visited@[u] <==> result@.contains(u as usize)),
                result@.no_duplicates(),
                result@.len() >= 1,
                result@[0] == tile,
                forall|k: int|
                    0 <= k < result@.len() ==> (#[trigger] result@[k]) < n && reachable(
                        adj,
                        tile as int,
                        result@[k] as int,
                    ),
                forall|k: int| 0 <= k < stack@.len() ==> result@.contains(#[trigger] stack@[k]),
                forall|k: int, m: int|
                    0 <= k < result@.len() && 0 <= m < adj[result@[k] as int].len()
                        && !stack@.contains(result@[k]) ==> visited@[#[trigger] adj[result@[k] as int][m] as int],
            decreases 2 * unvisited(visited@) + stack@.len(),
        {
            let ghost s0 = stack@;
            let t = stack.pop().unwrap();
            let ghost before = 2 * unvisited(visited@) + stack@.len();
            assert(result@.contains(t));
            proof {
                let q = choose|q: int| 0 <= q < result@.len() && result@[q] == t;
                assert(result@[q] < n);
                assert(s0 =~= stack@.push(t));
                assert forall|x: usize| s0.contains(x) && x != t implies stack@.contains(x) by {
                    let q = choose|q: int| 0 <= q < s0.len() && s0[q] == x;
                    assert(stack@[q] == x);
                }
            }
            let nbrs = &self.tiles[t].connected_to;
            assert(nbrs@ == adj[t as int]);
            let mut j: usize = 0;
            while j < nbrs.len()
                invariant
                    adj == self.links(),
                    self.wf(),
                    n == adj.len(),
                    tile < n,
                    t < n,
                    nbrs@ == adj[t as int],
                    j <= nbrs@.len(),
                    result@.contains(t),
                    visited@.len() == n,
                    forall|u: int|
                        0 <= u < n ==> (#[trigger] visited@[u] <==> result@.contains(u as usize)),
                    result@.no_duplicates(),
                    result@.len() >= 1,
                    result@[0] == tile,
                    forall|k: int|
                        0 <= k < result@.len() ==> (#[trigger] result@[k]) < n && reachable(
                            adj,
                            tile as int,
                            result@[k] as int,
                        ),
                    forall|k: int| 0 <= k < stack@.len() ==> result@.contains(#[trigger] stack@[k]),
                    forall|k: int, m: int|
                        0 <= k < result@.len() && 0 <= m < adj[result@[k] as int].len()
                            && !stack@.contains(result@[k]) && result@[k] != t ==> visited@[#[trigger] adj[result@[k] as int][m] as int],
                    forall|m: int| 0 <= m < j ==> visited@[#[trigger] adj[t as int][m] as int],
                    2 * unvisited(visited@) + stack@.len() <= before,
                decreases nbrs@.len() - j,
            {
                let u = nbrs[j];
                assert(adj[t as int][j as int] == u);
                if !visited[u] {
                    proof {
                        lemma_visit(visited@, u as int);
                        assert(linked(adj, t as int, u as int));
                        let kt = choose|kt: int| 0 <= kt < result@.len() && result@[kt] == t;
                        assert(reachable(adj, tile as int, result@[kt] as int));
                        lemma_reach_step(adj, tile as int, t as int, u as int);
                    }
                    let ghost old_result = result@;
                    let ghost old_stack = stack@;
                    visited.set(u, true);
                    result.push(u);
                    stack.push(u);
                    proof {
                        let kt = choose|kt: int| 0 <= kt < old_result.len() && old_result[kt] == t;
                        assert(result@[kt] == t);
                        assert forall|w: int| 0 <= w < n implies (#[trigger] visited@[w]
                            <==> result@.contains(w as usize)) by {
                            if w != u as int {
                                if old_result.contains(w as usize) {
                                    let q = choose|q: int| 0 <= q < old_result.len() && old_result[q] == w as usize;
                                    assert(result@[q] == w as usize);
                                }
                                if result@.contains(w as usize) {
                                    let q = choose|q: int| 0 <= q < result@.len() && result@[q] == w as usize;
                                    assert(q < old_result.len());
                                    assert(old_result[q] == w as usize);
                                }
                            } else {
                                assert(result@[result@.len() - 1] == u);
                            }
                        }
                        assert forall|k: int| 0 <= k < stack@.len() implies result@.contains(#[trigger] stack@[k]) by {
                            if k < old_stack.len() {
                                let q = choose|q: int| 0 <= q < old_result.len() && old_result[q] == old_stack[k];
                                assert(result@[q] == stack@[k]);
                            } else {
                                assert(result@[result@.len() - 1] == stack@[k]);
                            }
                        }
                        assert forall|k: int, m: int|
                            0 <= k < result@.len() && 0 <= m < adj[result@[k] as int].len()
                                && !stack@.contains(result@[k]) && result@[k] != t implies visited@[#[trigger] adj[result@[k] as int][m] as int] by {
                            if k < old_result.len() {
                                if old_stack.contains(result@[k]) {
                                    let q = choose|q: int| 0 <= q < old_stack.len() && old_stack[q] == result@[k];
                                    assert(stack@[q] == result@[k]);
                                }
                            } else {
                                assert(stack@[stack@.len() - 1] == result@[k]);
                            }
                        }
                    }
                }
                j = j + 1;
            }
            proof {
                assert forall|k: int, m: int|
                    0 <= k < result@.len() && 0 <= m < adj[result@[k] as int].len()
                        && !stack@.contains(result@[k]) implies visited@[#[trigger] adj[result@[k] as int][m] as int] by {
                    if result@[k] == t {
                        assert(adj[t as int][m] == adj[result@[k] as int][m]);
                    }
                }
            }
        }
        proof {
            assert(closed_under_links(adj, result@)) by {
                assert forall|i: int, k: int|
                    0 <= i < result@.len() && 0 <= k < adj[result@[i] as int].len() implies result@.contains(
                        #[trigger] adj[result@[i] as int][k],
                    ) by {
                    assert(!stack@.contains(result@[i]));
                    assert(adj[result@[i] as int][k] < n);
                    assert(visited@[adj[result@[i] as int][k] as int]);
                }
            }
            assert forall|x: usize| result@.to_set().contains(x) <==> group_of(adj, tile as int).contains(x) by {
                if reachable(adj, tile as int, x as int) {
                    lemma_closed_holds_reachable(adj, result@, tile as int, x as int);
                }
                if result@.contains(x) {
                    let q = choose|q: int| 0 <= q < result@.len() && result@[q] == x;
                    assert(reachable(adj, tile as int, result@[q] as int));
                }
            }
            assert(result@.to_set() =~= group_of(adj, tile as int));
        }
        result
    }

    /// The rigid group of `tile` as a set of tile indices.
    pub fn get_all_connected(&self, tile: usize) -> (r: HashSet<usize>)
        requires
            self.wf(),
            tile < self.tiles@.len(),
        ensures
            r@ == group_of(self.links(), tile as int),
    {
        let list = self.connected_list(tile);
        let mut set: HashSet<usize> = HashSet::new();
        let mut i: usize = 0;
        while i < list.len()
            invariant
                i <= list@.len(),
                forall|x: usize| set@.contains(x) <==> (exists|q: int| 0 <= q < i && list@[q] == x),
            decreases list@.len() - i,
        {
            set.insert(list[i]);
            proof {
                assert forall|x: usize| set@.contains(x) <==> (exists|q: int| 0 <= q < i + 1 && list@[q] == x) by {
                    if x == list@[i as int] {
                        assert(0 <= i < i + 1 && list@[i as int] == x);
                    }
                }
            }
            i = i + 1;
        }
        assert(set@ =~= list@.to_set());
        set
    }

    /// Asking for the group of any of its members gives the same set, also
    /// when connections form cycles.
    pub proof fn lemma_group_same_from_any_member(&self, a: usize, b: usize)
        requires
            self.wf(),
            group_of(self.links(), a as int).contains(b),
        ensures
            group_of(self.links(), b as int) == group_of(self.links(), a as int),
    {
        lemma_group_same_for_every_member(self.links(), a as int, b);
    }

    /// Every tile of the rigid group of `tile`, `tile` first, each with its
    /// grid offset from `tile`: where it sits relative to `tile`, in cells.
    pub fn group_offsets(&self, tile: usize) -> (r: Vec<(usize, isize, isize)>)
        requires
            self.wf(),
            tile < self.tiles@.len(),
        ensures
            r@.map_values(|e: (usize, isize, isize)| e.0).to_set() == group_of(
                self.links(),
                tile as int,
            ),
            r@.map_values(|e: (usize, isize, isize)| e.0).no_duplicates(),
            r@.len() >= 1,
            r@[0].0 == tile,
            forall|k: int|
                0 <= k < r@.len() ==> (#[trigger] r@[k]).0 < self.tiles@.len() && r@[k].1
                    == self.tiles@[r@[k].0 as int].puzzle_pos.x - self.tiles@[tile as int].puzzle_pos.x
                    && r@[k].2 == self.tiles@[r@[k].0 as int].puzzle_pos.y
                    - self.tiles@[tile as int].puzzle_pos.y,
    {
        let list = self.connected_list(tile);
        let cols = self.pieces.x;
        proof {
            assert(self.pieces.x <= self.pieces.x * self.pieces.y) by (nonlinear_arith)
                requires
                    self.pieces.y >= 1,
            ;
            assert(self.pieces.y <= self.pieces.x * self.pieces.y) by (nonlinear_arith)
                requires
                    self.pieces.x >= 1,
            ;
            self.lemma_cells_bounded();
        }
        let start = self.tiles[tile].puzzle_pos;
        let mut r: Vec<(usize, isize, isize)> = Vec::new();
        let mut k: usize = 0;
        while k < list.len()
            invariant
                self.wf(),
                tile < self.tiles@.len(),
                start == self.tiles@[tile as int].puzzle_pos,
                forall|i: int| 0 <= i < list@.len() ==> (#[trigger] list@[i]) < self.tiles@.len(),
                forall|i: int|
                    0 <= i < self.tiles@.len() ==> (#[trigger] self.tiles@[i]).puzzle_pos.x
                        <= isize::MAX && self.tiles@[i].puzzle_pos.y <= isize::MAX,
                k <= list@.len(),
                r@.len() == k,
                forall|i: int|
                    0 <= i < k ==> (#[trigger] r@[i]).0 == list@[i] && r@[i].1
                        == self.tiles@[list@[i] as int].puzzle_pos.x - start.x && r@[i].2
                        == self.tiles@[list@[i] as int].puzzle_pos.y - start.y,
            decreases list@.len() - k,
        {
            let t = list[k];
            let p = self.tiles[t].puzzle_pos;
            r.push((t, p.x as isize - start.x as isize, p.y as isize - start.y as isize));
            k = k + 1;
        }
        proof {
            assert(r@.map_values(|e: (usize, isize, isize)| e.0) =~= list@);
        }
        r
    }

    pub proof fn lemma_cells_bounded(&self)
        requires
            self.wf(),
        ensures
            forall|i: int|
                0 <= i < self.tiles@.len() ==> (#[trigger] self.tiles@[i]).puzzle_pos.x
                    <= isize::MAX && self.tiles@[i].puzzle_pos.y <= isize::MAX,
            forall|i: int| 0 <= i < self.links().len() ==> #[trigger] self.links()[i]
                == self.tiles@[i].connected_to@,
    {
        let cols = self.pieces.x as int;
        let n = self.tiles@.len() as int;
        assert forall|i: int| 0 <= i < n implies (#[trigger] self.tiles@[i]).puzzle_pos.x
            <= isize::MAX && self.tiles@[i].puzzle_pos.y <= isize::MAX by {
            assert(self.tiles@[i].puzzle_pos == cell_of(i, cols));
            assert(i % cols < cols && i / cols <= i) by (nonlinear_arith)
                requires
                    cols >= 1,
                    i >= 0,
            ;
            assert(self.pieces.x <= self.pieces.x * self.pieces.y) by (nonlinear_arith)
                requires
                    self.pieces.y >= 1,
            ;
        }
    }
}

} // verus!
