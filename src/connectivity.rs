//! Rigid groups: the connectivity relation between tiles, as neighbour lists,
//! and its transitive closure.
use vstd::prelude::*;

verus! {

/// Tile `a` lists tile `b` as connected (both are valid indices).
pub open spec fn linked(adj: Seq<Seq<usize>>, a: int, b: int) -> bool {
    0 <= a < adj.len() && 0 <= b < adj.len() && adj[a].contains(b as usize)
}

/// Every listed neighbour is a valid tile index.
pub open spec fn links_in_range(adj: Seq<Seq<usize>>) -> bool {
    forall|a: int, k: int|
        0 <= a < adj.len() && 0 <= k < adj[a].len() ==> (#[trigger] adj[a][k]) < adj.len()
}

/// Whenever `a` lists `b`, `b` lists `a`.
pub open spec fn links_symmetric(adj: Seq<Seq<usize>>) -> bool {
    forall|a: int, b: int| #[trigger] linked(adj, a, b) ==> linked(adj, b, a)
}

/// `p` is a walk along listed connections.
pub open spec fn is_path(adj: Seq<Seq<usize>>, p: Seq<int>) -> bool {
    &&& p.len() >= 1
    &&& forall|i: int| 0 <= i < p.len() ==> 0 <= #[trigger] p[i] < adj.len()
    &&& forall|i: int| 0 <= i < p.len() - 1 ==> #[trigger] linked(adj, p[i], p[i + 1])
}

/// Tile `b` can be reached from tile `a` along connections (every tile reaches itself).
pub open spec fn reachable(adj: Seq<Seq<usize>>, a: int, b: int) -> bool {
    exists|p: Seq<int>| #[trigger] is_path(adj, p) && p[0] == a && p.last() == b
}

/// The rigid group of tile `a`: every tile reachable from it.
pub open spec fn group_of(adj: Seq<Seq<usize>>, a: int) -> Set<usize> {
    Set::new(|b: usize| reachable(adj, a, b as int))
}

/// `s` holds every neighbour of each of its members.
pub open spec fn closed_under_links(adj: Seq<Seq<usize>>, s: Seq<usize>) -> bool {
    forall|i: int, k: int|
        0 <= i < s.len() && 0 <= k < adj[s[i] as int].len() ==> s.contains(
            #[trigger] adj[s[i] as int][k],
        )
}

pub proof fn lemma_reach_self(adj: Seq<Seq<usize>>, a: int)
    requires
        0 <= a < adj.len(),
    ensures
        reachable(adj, a, a),
{
    let p = seq![a];
    assert(is_path(adj, p));
}

pub proof fn lemma_reach_step(adj: Seq<Seq<usize>>, a: int, b: int, c: int)
    requires
        reachable(adj, a, b),
        linked(adj, b, c),
    ensures
        reachable(adj, a, c),
{
    let p = choose|p: Seq<int>| #[trigger] is_path(adj, p) && p[0] == a && p.last() == b;
    let q = p.push(c);
    assert forall|i: int| 0 <= i < q.len() - 1 implies #[trigger] linked(adj, q[i], q[i + 1]) by {
        if i < p.len() - 1 {
            assert(linked(adj, p[i], p[i + 1]));
        }
    }
    assert(is_path(adj, q));
}

/// A walk that starts inside a set closed under connections stays inside it.
proof fn lemma_path_stays_inside(adj: Seq<Seq<usize>>, s: Seq<usize>, p: Seq<int>, i: int)
    requires
        is_path(adj, p),
        s.contains(p[0] as usize),
        closed_under_links(adj, s),
        adj.len() <= usize::MAX,
        0 <= i < p.len(),
    ensures
        s.contains(p[i] as usize),
    decreases i,
{
    if i > 0 {
        let h = i - 1;
        lemma_path_stays_inside(adj, s, p, h);
        assert(linked(adj, p[h], p[h + 1]));
        let u = p[h];
        let k = choose|k: int| 0 <= k < adj[u].len() && adj[u][k] == p[i] as usize;
        let j = choose|j: int| 0 <= j < s.len() && s[j] == u as usize;
        assert(s[j] as int == u);
        assert(s.contains(adj[s[j] as int][k]));
    }
}

pub proof fn lemma_closed_holds_reachable(adj: Seq<Seq<usize>>, s: Seq<usize>, a: int, b: int)
    requires
        s.contains(a as usize),
        closed_under_links(adj, s),
        adj.len() <= usize::MAX,
        reachable(adj, a, b),
    ensures
        s.contains(b as usize),
{
    let p = choose|p: Seq<int>| #[trigger] is_path(adj, p) && p[0] == a && p.last() == b;
    lemma_path_stays_inside(adj, s, p, p.len() - 1);
}

pub proof fn lemma_reach_reverse(adj: Seq<Seq<usize>>, a: int, b: int)
    requires
        links_symmetric(adj),
        reachable(adj, a, b),
    ensures
        reachable(adj, b, a),
{
    let p = choose|p: Seq<int>| #[trigger] is_path(adj, p) && p[0] == a && p.last() == b;
    let n = p.len();
    let q = Seq::new(n, |i: int| p[n - 1 - i]);
    assert forall|i: int| 0 <= i < q.len() - 1 implies #[trigger] linked(adj, q[i], q[i + 1]) by {
        assert(linked(adj, p[n - 2 - i], p[n - 2 - i + 1]));
    }
    assert forall|i: int| 0 <= i < q.len() implies 0 <= #[trigger] q[i] < adj.len() by {
        assert(0 <= p[n - 1 - i] < adj.len());
    }
    assert(is_path(adj, q));
}

pub proof fn lemma_reach_join(adj: Seq<Seq<usize>>, a: int, b: int, c: int)
    requires
        reachable(adj, a, b),
        reachable(adj, b, c),
    ensures
        reachable(adj, a, c),
{
    let p = choose|p: Seq<int>| #[trigger] is_path(adj, p) && p[0] == a && p.last() == b;
    let q = choose|q: Seq<int>| #[trigger] is_path(adj, q) && q[0] == b && q.last() == c;
    let r = p + q.subrange(1, q.len() as int);
    let m = p.len();
    assert forall|i: int| 0 <= i < r.len() implies 0 <= #[trigger] r[i] < adj.len() by {
        if i >= m {
            assert(0 <= q[i - m + 1] < adj.len());
        } else {
            assert(0 <= p[i] < adj.len());
        }
    }
    assert forall|i: int| 0 <= i < r.len() - 1 implies #[trigger] linked(adj, r[i], r[i + 1]) by {
        if i < m - 1 {
            assert(linked(adj, p[i], p[i + 1]));
        } else {
            let j = i - m + 1;
            assert(linked(adj, q[j], q[j + 1]));
            assert(r[i] == q[j] && r[i + 1] == q[j + 1]);
        }
    }
    assert(is_path(adj, r));
    if q.len() == 1 {
        assert(r =~= p);
    }
}

/// The lists after `a` records `b` and then `b` records `a`.
pub open spec fn link_pair(adj: Seq<Seq<usize>>, a: int, b: int) -> Seq<Seq<usize>> {
    let first = adj.update(a, adj[a].push(b as usize));
    first.update(b, first[b].push(a as usize))
}

/// Connecting two tiles links exactly one more pair, and keeps the lists in
/// range and symmetric.
pub proof fn lemma_link_pair(adj: Seq<Seq<usize>>, a: int, b: int)
    requires
        links_in_range(adj),
        links_symmetric(adj),
        adj.len() <= usize::MAX,
        0 <= a < adj.len(),
        0 <= b < adj.len(),
    ensures
        links_in_range(link_pair(adj, a, b)),
        links_symmetric(link_pair(adj, a, b)),
        forall|x: int, y: int|
            #[trigger] linked(link_pair(adj, a, b), x, y) <==> (linked(adj, x, y) || (x == a
                && y == b) || (x == b && y == a)),
{
    let first = adj.update(a, adj[a].push(b as usize));
    let next = link_pair(adj, a, b);
    assert forall|x: int, y: int| #[trigger] linked(next, x, y) <==> (linked(adj, x, y) || (x == a
        && y == b) || (x == b && y == a)) by {
        if 0 <= x < adj.len() && 0 <= y < adj.len() {
            let yy = y as usize;
            if x == a && x == b {
                assert(next[x] =~= adj[x].push(b as usize).push(a as usize));
                assert(next[x].contains(yy) <==> (adj[x].contains(yy) || yy == b as usize || yy
                    == a as usize)) by {
                    if next[x].contains(yy) {
                        let k = choose|k: int| 0 <= k < next[x].len() && next[x][k] == yy;
                        if k < adj[x].len() {
                            assert(adj[x][k] == yy);
                        }
                    }
                    if adj[x].contains(yy) {
                        let k = choose|k: int| 0 <= k < adj[x].len() && adj[x][k] == yy;
                        assert(next[x][k] == yy);
                    }
                    if yy == b as usize {
                        assert(next[x][adj[x].len() as int] == yy);
                    }
                }
            } else if x == a || x == b {
                let v = if x == a { b as usize } else { a as usize };
                assert(next[x] =~= adj[x].push(v));
                assert(next[x].contains(yy) <==> (adj[x].contains(yy) || yy == v)) by {
                    if next[x].contains(yy) {
                        let k = choose|k: int| 0 <= k < next[x].len() && next[x][k] == yy;
                        if k < adj[x].len() {
                            assert(adj[x][k] == yy);
                        }
                    }
                    if adj[x].contains(yy) {
                        let k = choose|k: int| 0 <= k < adj[x].len() && adj[x][k] == yy;
                        assert(next[x][k] == yy);
                    }
                    if yy == v {
                        assert(next[x][adj[x].len() as int] == yy);
                    }
                }
            } else {
                assert(next[x] == adj[x]);
            }
        }
    }
    assert forall|x: int, k: int|
        0 <= x < next.len() && 0 <= k < next[x].len() implies (#[trigger] next[x][k]) < next.len() by {
        if x == b {
            if k < first[x].len() {
                if x == a {
                    if k < adj[x].len() {
                        assert(adj[x][k] < adj.len());
                    }
                } else {
                    assert(adj[x][k] < adj.len());
                }
            }
        } else if x == a {
            if k < adj[x].len() {
                assert(adj[x][k] < adj.len());
            }
        } else {
            assert(adj[x][k] < adj.len());
        }
    }
    assert forall|x: int, y: int| #[trigger] linked(next, x, y) implies linked(next, y, x) by {
        if linked(adj, x, y) {
            assert(linked(adj, y, x));
        }
        assert(linked(next, y, x) <==> (linked(adj, y, x) || (y == a && x == b) || (y == b && x
            == a)));
    }
}

/// Connectivity is symmetric: wherever the connection lists are kept
/// symmetric, tile `a` lists tile `b` exactly when `b` lists `a`.
pub proof fn lemma_links_mutual(adj: Seq<Seq<usize>>, a: int, b: int)
    requires
        links_symmetric(adj),
    ensures
        linked(adj, a, b) <==> linked(adj, b, a),
{
    if linked(adj, a, b) {
        assert(linked(adj, b, a));
    }
    if linked(adj, b, a) {
        assert(linked(adj, a, b));
    }
}

/// The rigid group is the same whichever of its members is asked about,
/// also when connections form cycles.
pub proof fn lemma_group_same_for_every_member(adj: Seq<Seq<usize>>, a: int, b: usize)
    requires
        links_symmetric(adj),
        group_of(adj, a).contains(b),
    ensures
        group_of(adj, b as int) == group_of(adj, a),
{
    assert(reachable(adj, a, b as int));
    lemma_reach_reverse(adj, a, b as int);
    assert forall|x: usize| group_of(adj, b as int).contains(x) <==> group_of(adj, a).contains(x) by {
        if reachable(adj, b as int, x as int) {
            lemma_reach_join(adj, a, b as int, x as int);
        }
        if reachable(adj, a, x as int) {
            lemma_reach_join(adj, b as int, a, x as int);
        }
    }
    assert(group_of(adj, b as int) =~= group_of(adj, a));
}

} // verus!
