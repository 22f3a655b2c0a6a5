//! A client's local view of a room: who holds which tile, how tiles are
//! connected, and the choices the client makes on input (which tile a click
//! takes, what a release proposes to connect) and on each server event.
//!
//! Positions stay with the caller, which interpolates them; here each event
//! yields the position work to carry out, as `Motion`s.
use vstd::prelude::*;
use crate::connectivity::{
    group_of, lemma_link_pair, link_pair, linked, links_in_range, links_symmetric,
};
use crate::interop::{ClientMessage, Id, RoomConfig, ServerMessage, TileState};
use crate::jigsaw::{cell_of, grid_adjacent, GridPos, Jigsaw};
use crate::server::{copy_indices, tile_links};

verus! {

pub struct Player<P> {
    pub id: Id,
    pub name: String,
    /// The tile this player holds, and the offset from the cursor to the tile.
    pub tile_grabbed: Option<(usize, P)>,
}

/// Position work for the caller, on its interpolated positions.
pub enum Motion<P> {
    /// The cursor of `player` heads smoothly for `pos`.
    Cursor { player: Id, pos: P },
    /// The group of `tile` is set at once where `tile` now is, moving on with
    /// the cursor velocity of `player`.
    Settle { tile: usize, player: Id },
    /// The group of `tile` glides so that `tile` ends at `pos` plus `offset`
    /// (at `pos` when there is no offset).
    Glide { tile: usize, pos: P, offset: Option<P> },
    /// The group of `tile` glides so that `tile` sits `dx`, `dy` cells from `anchor`.
    Attach { tile: usize, anchor: usize, dx: isize, dy: isize },
}

pub struct Game<P> {
    /// This client's player.
    pub id: Id,
    pub players: Vec<Player<P>>,
    pub jigsaw: Jigsaw,
    /// The current frame, used to stamp tiles when they are grabbed.
    pub time: u64,
}

/// The first `k` elements of `s`, as a set.
pub open spec fn prefix_set(s: Seq<usize>, k: int) -> Set<usize> {
    Set::new(|x: usize| exists|q: int| 0 <= q < k && #[trigger] s[q] == x)
}

/// The tile each player holds, with its id and offset, in player order.
pub open spec fn held_moves<P>(players: Seq<Player<P>>) -> Seq<(usize, Id, P)>
    decreases players.len(),
{
    if players.len() == 0 {
        seq![]
    } else {
        let rest = held_moves(players.drop_last());
        match players.last().tile_grabbed {
            Some(g) => rest.push((g.0, players.last().id, g.1)),
            None => rest,
        }
    }
}

/// A player with this id is listed.
pub open spec fn lists<P>(players: Seq<Player<P>>, id: Id) -> bool {
    exists|j: int| 0 <= j < players.len() && #[trigger] players[j].id == id
}

/// `new` is `old`, plus a fresh nameless entry for `id` when `old` had none;
/// `i` is where `id` is listed in `new`.
pub open spec fn registered<P>(old: Seq<Player<P>>, new: Seq<Player<P>>, id: Id, i: int) -> bool {
    &&& 0 <= i < new.len()
    &&& new[i].id == id
    &&& if lists(old, id) {
        new == old
    } else {
        &&& new.drop_last() == old
        &&& i == old.len()
        &&& new[i].name@ == Seq::<char>::empty()
        &&& new[i].tile_grabbed is None
    }
}

/// The tile grid position, as a signed offset from `b` to `a`.
pub open spec fn step(a: GridPos, b: GridPos) -> (int, int) {
    (a.x - b.x, a.y - b.y)
}

/// Each tile of `group` (member `m`) with each tile `i < k` that is a grid
/// neighbour of `m` and that `m` does not list as connected, with their grid
/// offset: the pairs a release tests for snapping.
pub open spec fn candidates_row(jigsaw: Jigsaw, m: int, k: int) -> Seq<(usize, usize, isize, isize)>
    decreases k,
{
    if k <= 0 {
        seq![]
    } else {
        let rest = candidates_row(jigsaw, m, k - 1);
        let i = k - 1;
        let a = jigsaw.tiles@[m].puzzle_pos;
        let b = jigsaw.tiles@[i].puzzle_pos;
        if !jigsaw.tiles@[m].connected_to@.contains(i as usize) && grid_adjacent(a, b) {
            rest.push((m as usize, i as usize, (a.x - b.x) as isize, (a.y - b.y) as isize))
        } else {
            rest
        }
    }
}

pub open spec fn candidates(jigsaw: Jigsaw, group: Seq<usize>) -> Seq<(usize, usize, isize, isize)>
    decreases group.len(),
{
    if group.len() == 0 {
        seq![]
    } else {
        candidates(jigsaw, group.drop_last()) + candidates_row(
            jigsaw,
            group.last() as int,
            jigsaw.tiles@.len() as int,
        )
    }
}

/// The tiles are stamped with `time` exactly where `group` says so; nothing
/// else about them changed.
pub open spec fn stamped(old: Jigsaw, new: Jigsaw, group: Set<usize>, time: u64) -> bool {
    &&& new.pieces == old.pieces
    &&& new.tiles@.len() == old.tiles@.len()
    &&& new.links() == old.links()
    &&& forall|t: int|
        0 <= t < old.tiles@.len() ==> {
            &&& (#[trigger] new.tiles@[t]).grabbed_by == old.tiles@[t].grabbed_by
            &&& new.tiles@[t].puzzle_pos == old.tiles@[t].puzzle_pos
            &&& new.tiles@[t].last_interaction_time == if group.contains(t as usize) {
                time
            } else {
                old.tiles@[t].last_interaction_time
            }
        }
}

/// Only the owner of tile `t` changed, to `owner`.
pub open spec fn owner_set(old: Jigsaw, new: Jigsaw, t: int, owner: Option<Id>) -> bool {
    &&& new.pieces == old.pieces
    &&& new.tiles@.len() == old.tiles@.len()
    &&& new.links() == old.links()
    &&& forall|u: int|
        0 <= u < old.tiles@.len() ==> {
            &&& (#[trigger] new.tiles@[u]).puzzle_pos == old.tiles@[u].puzzle_pos
            &&& new.tiles@[u].last_interaction_time == old.tiles@[u].last_interaction_time
            &&& new.tiles@[u].grabbed_by == if u == t {
                owner
            } else {
                old.tiles@[u].grabbed_by
            }
        }
}

/// An event this client can receive once it is in a room, with indices that
/// name tiles of the puzzle (two grid neighbours, for a connection).
pub open spec fn event_fits<P>(jigsaw: Jigsaw, m: ServerMessage<P>) -> bool {
    match m {
        ServerMessage::SetupId { .. } => false,
        ServerMessage::RoomNotFound => false,
        ServerMessage::RoomCreated(_) => false,
        ServerMessage::TileGrabbed { tile, .. } => tile < jigsaw.tiles@.len(),
        ServerMessage::TileReleased { tile, .. } => tile < jigsaw.tiles@.len(),
        ServerMessage::ConnectTiles(a, b) => a < jigsaw.tiles@.len() && b < jigsaw.tiles@.len()
            && grid_adjacent(jigsaw.tiles@[a as int].puzzle_pos, jigsaw.tiles@[b as int].puzzle_pos),
        _ => true,
    }
}

/// The outcome of one server event.
pub open spec fn applied<P>(old: Game<P>, new: Game<P>, m: ServerMessage<P>, motions: Seq<Motion<P>>) -> bool {
    &&& new.id == old.id
    &&& new.time == old.time
    &&& match m {
        ServerMessage::UpdatePlayerName(pid, name) => exists|mid: Seq<Player<P>>, i: int|
            registered(old.players@, mid, pid, i) && new.players@ == mid.update(
                i,
                Player { name: name, ..mid[i] },
            ) && new.jigsaw == old.jigsaw && motions.len() == 0,
        ServerMessage::UpdatePos(pid, pos) => exists|i: int|
            registered(old.players@, new.players@, pid, i) && new.jigsaw == old.jigsaw && motions
                == seq![Motion::Cursor { player: pid, pos }],
        ServerMessage::PlayerDisconnected(pid) => {
            &&& !lists(new.players@, pid)
            &&& forall|p: Player<P>|
                new.players@.contains(p) <==> old.players@.contains(p) && p.id != pid
            &&& new.jigsaw == old.jigsaw
            &&& motions.len() == 0
        },
        ServerMessage::TileGrabbed { player, tile, offset } => exists|
            mid: Seq<Player<P>>,
            i: int,
            between: Jigsaw,
        |
            registered(old.players@, mid, player, i) && new.players@ == mid.update(
                i,
                Player { tile_grabbed: Some((tile, offset)), ..mid[i] },
            ) && owner_set(old.jigsaw, between, tile as int, Some(player)) && stamped(
                between,
                new.jigsaw,
                group_of(old.jigsaw.links(), tile as int),
                old.time,
            ) && motions.len() == 0,
        ServerMessage::TileReleased { player, tile, pos } => exists|mid: Seq<Player<P>>, i: int|
            #![trigger registered(old.players@, mid, player, i)]
            registered(old.players@, mid, player, i) && new.players@ == mid.update(
                i,
                Player { tile_grabbed: None, ..mid[i] },
            ) && owner_set(old.jigsaw, new.jigsaw, tile as int, None) && motions == seq![
                Motion::Settle { tile, player },
                Motion::Glide {
                    tile,
                    pos,
                    offset: match mid[i].tile_grabbed {
                        Some(g) => Some(g.1),
                        None => None,
                    },
                },
            ],
        ServerMessage::ConnectTiles(a, b) => {
            let d = step(
                old.jigsaw.tiles@[a as int].puzzle_pos,
                old.jigsaw.tiles@[b as int].puzzle_pos,
            );
            &&& new.players@ == old.players@
            &&& new.jigsaw.pieces == old.jigsaw.pieces
            &&& new.jigsaw.tiles@.len() == old.jigsaw.tiles@.len()
            &&& new.jigsaw.links() == link_pair(old.jigsaw.links(), a as int, b as int)
            &&& forall|u: int|
                0 <= u < old.jigsaw.tiles@.len() ==> {
                    &&& (#[trigger] new.jigsaw.tiles@[u]).puzzle_pos
                        == old.jigsaw.tiles@[u].puzzle_pos
                    &&& new.jigsaw.tiles@[u].last_interaction_time
                        == old.jigsaw.tiles@[u].last_interaction_time
                    &&& new.jigsaw.tiles@[u].grabbed_by == old.jigsaw.tiles@[u].grabbed_by
                }
            &&& motions == seq![
                Motion::<P>::Attach { tile: a, anchor: b, dx: d.0 as isize, dy: d.1 as isize },
            ]
        },
        _ => false,
    }
}

impl<P: Copy> Game<P> {
    pub open spec fn wf(&self) -> bool {
        &&& self.jigsaw.wf()
        &&& forall|i: int, j: int|
            0 <= i < self.players@.len() && 0 <= j < self.players@.len() && i != j
                ==> #[trigger] self.players@[i].id != #[trigger] self.players@[j].id
        &&& forall|i: int|
            0 <= i < self.players@.len() ==> match (#[trigger] self.players@[i]).tile_grabbed {
                Some(g) => g.0 < self.jigsaw.tiles@.len(),
                None => true,
            }
    }

    /// The local model of a room just joined, from the room's configuration
    /// and the snapshot of its tiles; `name` is this player's own name.
    pub fn new(id: Id, name: String, room_config: RoomConfig, tiles: &Vec<TileState<P>>) -> (r: Self)
        requires
            room_config.size.x >= 1,
            room_config.size.y >= 1,
            room_config.size.x * room_config.size.y <= isize::MAX,
            tiles@.len() == room_config.size.x * room_config.size.y,
            links_in_range(tile_links(tiles@)),
            links_symmetric(tile_links(tiles@)),
        ensures
            r.wf(),
            r.id == id,
            r.time == 0,
            r.players@.len() == 1,
            r.players@[0].id == id,
            r.players@[0].name == name,
            r.players@[0].tile_grabbed is None,
            r.jigsaw.pieces == room_config.size,
            r.jigsaw.links() == tile_links(tiles@),
            forall|i: int|
                0 <= i < tiles@.len() ==> (#[trigger] r.jigsaw.tiles@[i]).grabbed_by
                    == tiles@[i].grabbed_by && r.jigsaw.tiles@[i].last_interaction_time == 0,
    {
        let mut jigsaw = Jigsaw::generate(room_config.size);
        let n = tiles.len();
        let mut i: usize = 0;
        while i < n
            invariant
                n == tiles@.len(),
                jigsaw.tiles@.len() == n,
                jigsaw.pieces == room_config.size,
                i <= n,
                forall|k: int|
                    0 <= k < n ==> (#[trigger] jigsaw.tiles@[k]).puzzle_pos == cell_of(
                        k,
                        room_config.size.x as int,
                    ) && jigsaw.tiles@[k].last_interaction_time == 0,
                forall|k: int|
                    0 <= k < i ==> (#[trigger] jigsaw.tiles@[k]).grabbed_by == tiles@[k].grabbed_by
                        && jigsaw.tiles@[k].connected_to@ == tiles@[k].connections@,
            decreases n - i,
        {
            jigsaw.tiles[i].grabbed_by = tiles[i].grabbed_by;
            jigsaw.tiles[i].connected_to = copy_indices(&tiles[i].connections);
            i = i + 1;
        }
        assert(jigsaw.links() =~= tile_links(tiles@));
        let mut players: Vec<Player<P>> = Vec::new();
        players.push(Player { id, name, tile_grabbed: None });
        Game { id, players, jigsaw, time: 0 }
    }

    /// Where the player `id` is listed, adding a nameless entry for it first
    /// if there is none.
    #[verifier::loop_isolation(false)]
    pub fn get_player(&mut self, id: Id) -> (i: usize)
        requires
            old(self).wf(),
        ensures
            final(self).wf(),
            registered(old(self).players@, final(self).players@, id, i as int),
            final(self).jigsaw == old(self).jigsaw,
            final(self).id == old(self).id,
            final(self).time == old(self).time,
    {
        let mut i: usize = 0;
        while i < self.players.len()
            invariant
                i <= self.players@.len(),
                forall|k: int| 0 <= k < i ==> (#[trigger] self.players@[k]).id != id,
            decreases self.players@.len() - i,
        {
            if self.players[i].id.0 == id.0 {
                return i;
            }
            i = i + 1;
        }
        let ghost before = self.players@;
        self.players.push(Player { id, name: String::new(), tile_grabbed: None });
        proof {
            assert(self.players@.drop_last() =~= before);
            assert(!lists(before, id));
            assert forall|a: int, b: int|
                0 <= a < self.players@.len() && 0 <= b < self.players@.len() && a != b
                    implies #[trigger] self.players@[a].id != #[trigger] self.players@[b].id by {
                if a < before.len() && b < before.len() {
                    assert(before[a].id != before[b].id);
                }
            }
            assert forall|a: int| 0 <= a < self.players@.len() implies match (#[trigger] self.players@[a]).tile_grabbed {
                Some(g) => g.0 < self.jigsaw.tiles@.len(),
                None => true,
            } by {
                if a < before.len() {
                    assert(self.players@[a] == before[a]);
                }
            }
        }
        i
    }

    /// Stamps every tile of the group of `tile` with the current frame.
    fn stamp_group(&mut self, tile: usize)
        requires
            old(self).wf(),
            tile < old(self).jigsaw.tiles@.len(),
        ensures
            final(self).wf(),
            final(self).players@ == old(self).players@,
            final(self).id == old(self).id,
            final(self).time == old(self).time,
            stamped(
                old(self).jigsaw,
                final(self).jigsaw,
                group_of(old(self).jigsaw.links(), tile as int),
                old(self).time,
            ),
    {
        let group = self.jigsaw.connected_list(tile);
        let ghost j0 = self.jigsaw;
        let mut k: usize = 0;
        while k < group.len()
            invariant
                self.wf(),
                j0.wf(),
                self.players@ == old(self).players@,
                self.id == old(self).id,
                self.time == old(self).time,
                j0 == old(self).jigsaw,
                k <= group@.len(),
                forall|q: int| 0 <= q < group@.len() ==> (#[trigger] group@[q]) < j0.tiles@.len(),
                stamped(j0, self.jigsaw, prefix_set(group@, k as int), self.time),
            decreases group@.len() - k,
        {
            let t = group[k];
            let ghost j1 = self.jigsaw;
            self.jigsaw.tiles[t].last_interaction_time = self.time;
            proof {
                assert(self.jigsaw.links() =~= j1.links());
                assert(prefix_set(group@, k + 1) =~= prefix_set(group@, k as int).insert(t)) by {
                    assert forall|x: usize| prefix_set(group@, k + 1).contains(x) <==> (prefix_set(group@, k as int).contains(x) || x == t) by {
                        if x == t {
                            assert(0 <= k < k + 1 && group@[k as int] == x);
                        }
                    }
                }
            }
            k = k + 1;
        }
        assert(prefix_set(group@, group@.len() as int) =~= group@.to_set());
    }

    /// The topmost tile among those under the cursor (`hits[i]` says whether
    /// tile `i` covers the point): the most recently grabbed one, and of
    /// those the last.
    pub fn hovered_tile(&self, hits: &Vec<bool>) -> (r: Option<usize>)
        requires
            hits@.len() == self.jigsaw.tiles@.len(),
        ensures
            match r {
                None => forall|j: int| 0 <= j < hits@.len() ==> !(#[trigger] hits@[j]),
                Some(i) => {
                    &&& i < hits@.len()
                    &&& hits@[i as int]
                    &&& forall|j: int|
                        0 <= j < hits@.len() && #[trigger] hits@[j] ==> self.jigsaw.tiles@[j].last_interaction_time
                            <= self.jigsaw.tiles@[i as int].last_interaction_time
                    &&& forall|j: int|
                        i < j < hits@.len() && #[trigger] hits@[j] ==> self.jigsaw.tiles@[j].last_interaction_time
                            < self.jigsaw.tiles@[i as int].last_interaction_time
                },
            },
    {
        let mut best: Option<usize> = None;
        let mut j: usize = 0;
        while j < hits.len()
            invariant
                hits@.len() == self.jigsaw.tiles@.len(),
                j <= hits@.len(),
                match best {
                    None => forall|q: int| 0 <= q < j ==> !(#[trigger] hits@[q]),
                    Some(i) => {
                        &&& i < j
                        &&& hits@[i as int]
                        &&& forall|q: int|
                            0 <= q < j && #[trigger] hits@[q] ==> self.jigsaw.tiles@[q].last_interaction_time
                                <= self.jigsaw.tiles@[i as int].last_interaction_time
                        &&& forall|q: int|
                            i < q < j && #[trigger] hits@[q] ==> self.jigsaw.tiles@[q].last_interaction_time
                                < self.jigsaw.tiles@[i as int].last_interaction_time
                    },
                },
            decreases hits@.len() - j,
        {
            if hits[j] {
                match best {
                    None => {
                        best = Some(j);
                    },
                    Some(i) => {
                        if self.jigsaw.tiles[j].last_interaction_time
                            >= self.jigsaw.tiles[i].last_interaction_time {
                            best = Some(j);
                        }
                    },
                }
            }
            j = j + 1;
        }
        best
    }

    /// A click on `hit` (the topmost tile under the cursor, if any): this
    /// player takes it at once, before the server confirms, with `offset`
    /// from the cursor to the tile, and its group comes to the top. Returns
    /// the request to send.
    pub fn click(&mut self, hit: Option<usize>, offset: P) -> (r: Option<ClientMessage<P>>)
        requires
            old(self).wf(),
            match hit {
                Some(i) => i < old(self).jigsaw.tiles@.len(),
                None => true,
            },
        ensures
            final(self).wf(),
            final(self).id == old(self).id,
            final(self).time == old(self).time,
            match hit {
                None => r is None && final(self).players@ == old(self).players@ && final(self).jigsaw
                    == old(self).jigsaw,
                Some(i) => {
                    &&& r == Some(ClientMessage::GrabTile { tile: i, offset })
                    &&& exists|mid: Seq<Player<P>>, k: int, between: Jigsaw|
                        registered(old(self).players@, mid, old(self).id, k)
                            && final(self).players@ == mid.update(
                            k,
                            Player { tile_grabbed: Some((i, offset)), ..mid[k] },
                        ) && owner_set(old(self).jigsaw, between, i as int, Some(old(self).id))
                            && stamped(
                            between,
                            final(self).jigsaw,
                            group_of(old(self).jigsaw.links(), i as int),
                            old(self).time,
                        )
                },
            },
    {
        match hit {
            None => None,
            Some(i) => {
                let me = self.id;
                self.take_tile(me, i, offset);
                Some(ClientMessage::GrabTile { tile: i, offset })
            },
        }
    }

    /// `player` holds `tile`, with `offset`; the group of `tile` comes to the top.
    fn take_tile(&mut self, player: Id, tile: usize, offset: P)
        requires
            old(self).wf(),
            tile < old(self).jigsaw.tiles@.len(),
        ensures
            final(self).wf(),
            final(self).id == old(self).id,
            final(self).time == old(self).time,
            exists|mid: Seq<Player<P>>, k: int, between: Jigsaw|
                registered(old(self).players@, mid, player, k) && final(self).players@
                    == mid.update(k, Player { tile_grabbed: Some((tile, offset)), ..mid[k] })
                    && owner_set(old(self).jigsaw, between, tile as int, Some(player)) && stamped(
                    between,
                    final(self).jigsaw,
                    group_of(old(self).jigsaw.links(), tile as int),
                    old(self).time,
                ),
    {
        let ghost j0 = self.jigsaw;
        let k = self.get_player(player);
        let ghost mid = self.players@;
        self.players[k].tile_grabbed = Some((tile, offset));
        self.jigsaw.tiles[tile].grabbed_by = Some(player);
        let ghost between = self.jigsaw;
        proof {
            assert(between.links() =~= j0.links());
            assert(self.players@ =~= mid.update(
                k as int,
                Player { tile_grabbed: Some((tile, offset)), ..mid[k as int] },
            ));
            assert forall|a: int, b: int|
                0 <= a < self.players@.len() && 0 <= b < self.players@.len() && a != b
                    implies #[trigger] self.players@[a].id != #[trigger] self.players@[b].id by {
                assert(mid[a].id != mid[b].id);
            }
            assert forall|a: int| 0 <= a < self.players@.len() implies match (#[trigger] self.players@[a]).tile_grabbed {
                Some(g) => g.0 < self.jigsaw.tiles@.len(),
                None => true,
            } by {
                if a != k {
                    assert(self.players@[a] == mid[a]);
                }
            }
        }
        proof {
            assert(owner_set(j0, between, tile as int, Some(player)));
        }
        self.stamp_group(tile);
        proof {
            assert(registered(old(self).players@, mid, player, k as int));
            assert(self.players@ == mid.update(
                k as int,
                Player { tile_grabbed: Some((tile, offset)), ..mid[k as int] },
            ));
            assert(stamped(between, self.jigsaw, group_of(j0.links(), tile as int), self.time));
        }
    }

    /// The release of the tile this player holds. It lets go of it and
    /// returns its group, the held tile first; the caller sends their
    /// positions and then tests `snap_candidates` of the group.
    pub fn release(&mut self) -> (r: Option<Vec<usize>>)
        requires
            old(self).wf(),
        ensures
            final(self).wf(),
            final(self).id == old(self).id,
            final(self).time == old(self).time,
            exists|mid: Seq<Player<P>>, k: int|
                registered(old(self).players@, mid, old(self).id, k) && match mid[k].tile_grabbed {
                    None => r is None && final(self).players@ == mid && final(self).jigsaw
                        == old(self).jigsaw,
                    Some(g) => {
                        &&& final(self).players@ == mid.update(
                            k,
                            Player { tile_grabbed: None, ..mid[k] },
                        )
                        &&& owner_set(old(self).jigsaw, final(self).jigsaw, g.0 as int, None)
                        &&& match r {
                            Some(group) => {
                                &&& group@.to_set() == group_of(old(self).jigsaw.links(), g.0 as int)
                                &&& group@.no_duplicates()
                                &&& group@.len() >= 1
                                &&& group@[0] == g.0
                            },
                            None => false,
                        }
                    },
                },
    {
        let me = self.id;
        let k = self.get_player(me);
        let ghost mid = self.players@;
        match self.players[k].tile_grabbed {
            None => None,
            Some(g) => {
                let tile = g.0;
                self.players[k].tile_grabbed = None;
                let group = self.jigsaw.connected_list(tile);
                let ghost j0 = self.jigsaw;
                self.jigsaw.tiles[tile].grabbed_by = None;
                proof {
                    assert(self.jigsaw.links() =~= j0.links());
                    assert(self.players@ =~= mid.update(
                        k as int,
                        Player { tile_grabbed: None, ..mid[k as int] },
                    ));
                    assert forall|a: int, b: int|
                        0 <= a < self.players@.len() && 0 <= b < self.players@.len() && a != b
                            implies #[trigger] self.players@[a].id != #[trigger] self.players@[b].id by {
                        assert(mid[a].id != mid[b].id);
                    }
                    assert forall|a: int| 0 <= a < self.players@.len() implies match (#[trigger] self.players@[a]).tile_grabbed {
                        Some(g) => g.0 < self.jigsaw.tiles@.len(),
                        None => true,
                    } by {
                        if a != k {
                            assert(self.players@[a] == mid[a]);
                        }
                    }
                }
                Some(group)
            },
        }
    }

    /// For each tile of `group`, each grid neighbour it is not connected to,
    /// with the grid offset from the neighbour to the tile. A release proposes
    /// to connect each such pair whose positions are within snapping distance.
    pub fn snap_candidates(&self, group: &Vec<usize>) -> (r: Vec<(usize, usize, isize, isize)>)
        requires
            self.wf(),
            forall|q: int| 0 <= q < group@.len() ==> (#[trigger] group@[q]) < self.jigsaw.tiles@.len(),
        ensures
            r@ == candidates(self.jigsaw, group@),
    {
        let n = self.jigsaw.tiles.len();
        proof {
            self.jigsaw.lemma_cells_bounded();
        }
        let mut r: Vec<(usize, usize, isize, isize)> = Vec::new();
        let mut g: usize = 0;
        while g < group.len()
            invariant
                self.wf(),
                n == self.jigsaw.tiles@.len(),
                forall|q: int| 0 <= q < group@.len() ==> (#[trigger] group@[q]) < n,
                forall|i: int|
                    0 <= i < n ==> (#[trigger] self.jigsaw.tiles@[i]).puzzle_pos.x <= isize::MAX
                        && self.jigsaw.tiles@[i].puzzle_pos.y <= isize::MAX,
                g <= group@.len(),
                r@ == candidates(self.jigsaw, group@.subrange(0, g as int)),
            decreases group@.len() - g,
        {
            let m = group[g];
            let ghost base = r@;
            let a = self.jigsaw.tiles[m].puzzle_pos;
            let mut i: usize = 0;
            while i < n
                invariant
                    self.wf(),
                    n == self.jigsaw.tiles@.len(),
                    m < n,
                    a == self.jigsaw.tiles@[m as int].puzzle_pos,
                    forall|q: int|
                        0 <= q < n ==> (#[trigger] self.jigsaw.tiles@[q]).puzzle_pos.x <= isize::MAX
                            && self.jigsaw.tiles@[q].puzzle_pos.y <= isize::MAX,
                    i <= n,
                    r@ == base + candidates_row(self.jigsaw, m as int, i as int),
                decreases n - i,
            {
                let b = self.jigsaw.tiles[i].puzzle_pos;
                let linked = contains_index(&self.jigsaw.tiles[m].connected_to, i);
                let adjacent = (a.x == b.x && (a.y + 1 == b.y || b.y + 1 == a.y)) || (a.y == b.y && (
                a.x + 1 == b.x || b.x + 1 == a.x));
                if !linked && adjacent {
                    r.push((m, i, a.x as isize - b.x as isize, a.y as isize - b.y as isize));
                }
                i = i + 1;
            }
            proof {
                assert(group@.subrange(0, g + 1).drop_last() =~= group@.subrange(0, g as int));
                assert(group@.subrange(0, g + 1).last() == m);
            }
            g = g + 1;
        }
        assert(group@.subrange(0, group@.len() as int) =~= group@);
        r
    }

    /// Applies one server event to the local model, and returns the position
    /// work it calls for.
    pub fn apply(&mut self, message: ServerMessage<P>) -> (motions: Vec<Motion<P>>)
        requires
            old(self).wf(),
            event_fits(old(self).jigsaw, message),
        ensures
            final(self).wf(),
            applied(*old(self), *final(self), message, motions@),
    {
        let mut motions: Vec<Motion<P>> = Vec::new();
        match message {
            ServerMessage::UpdatePlayerName(pid, name) => {
                let i = self.get_player(pid);
                let ghost mid = self.players@;
                self.players[i].name = name;
                proof {
                    assert forall|a: int, b: int|
                        0 <= a < self.players@.len() && 0 <= b < self.players@.len() && a != b
                            implies #[trigger] self.players@[a].id != #[trigger] self.players@[b].id by {
                        assert(mid[a].id != mid[b].id);
                    }
                    assert forall|a: int| 0 <= a < self.players@.len() implies match (#[trigger] self.players@[a]).tile_grabbed {
                        Some(g) => g.0 < self.jigsaw.tiles@.len(),
                        None => true,
                    } by {
                        assert(self.players@[a].tile_grabbed == mid[a].tile_grabbed);
                    }
                    assert(self.players@ =~= mid.update(i as int, Player { name: name, ..mid[i as int] }));
                    assert(registered(old(self).players@, mid, pid, i as int));
                }
            },
            ServerMessage::UpdatePos(pid, pos) => {
                let i = self.get_player(pid);
                assert(registered(old(self).players@, self.players@, pid, i as int));
                motions.push(Motion::Cursor { player: pid, pos });
                assert(motions@ =~= seq![Motion::Cursor { player: pid, pos }]);
            },
            ServerMessage::PlayerDisconnected(pid) => {
                self.remove_player(pid);
            },
            ServerMessage::TileGrabbed { player, tile, offset } => {
                self.take_tile(player, tile, offset);
            },
            ServerMessage::TileReleased { player, tile, pos } => {
                let i = self.get_player(player);
                let ghost mid = self.players@;
                let offset = match self.players[i].tile_grabbed {
                    Some(g) => Some(g.1),
                    None => None,
                };
                self.players[i].tile_grabbed = None;
                let ghost j0 = self.jigsaw;
                self.jigsaw.tiles[tile].grabbed_by = None;
                proof {
                    assert(self.jigsaw.links() =~= j0.links());
                    assert(self.players@ =~= mid.update(
                        i as int,
                        Player { tile_grabbed: None, ..mid[i as int] },
                    ));
                    assert forall|a: int, b: int|
                        0 <= a < self.players@.len() && 0 <= b < self.players@.len() && a != b
                            implies #[trigger] self.players@[a].id != #[trigger] self.players@[b].id by {
                        assert(mid[a].id != mid[b].id);
                    }
                    assert forall|a: int| 0 <= a < self.players@.len() implies match (#[trigger] self.players@[a]).tile_grabbed {
                        Some(g) => g.0 < self.jigsaw.tiles@.len(),
                        None => true,
                    } by {
                        if a != i {
                            assert(self.players@[a] == mid[a]);
                        }
                    }
                }
                assert(registered(old(self).players@, mid, player, i as int));
                assert(owner_set(old(self).jigsaw, self.jigsaw, tile as int, None));
                assert(offset == match mid[i as int].tile_grabbed {
                    Some(g) => Some(g.1),
                    None => None,
                });
                motions.push(Motion::Settle { tile, player });
                motions.push(Motion::Glide { tile, pos, offset });
                assert(motions@ =~= seq![
                    Motion::Settle { tile, player },
                    Motion::Glide { tile, pos, offset },
                ]);
                assert(self.players@ == mid.update(i as int, Player { tile_grabbed: None, ..mid[i as int] }));
                assert(motions@ == seq![
                    Motion::Settle { tile, player },
                    Motion::Glide {
                        tile,
                        pos,
                        offset: match mid[i as int].tile_grabbed {
                            Some(g) => Some(g.1),
                            None => None,
                        },
                    },
                ]);
                assert(self.id == old(self).id && self.time == old(self).time);
            },
            ServerMessage::ConnectTiles(a, b) => {
                let ghost j0 = self.jigsaw;
                proof {
                    self.jigsaw.lemma_cells_bounded();
                    lemma_link_pair(j0.links(), a as int, b as int);
                }
                let pa = self.jigsaw.tiles[a].puzzle_pos;
                let pb = self.jigsaw.tiles[b].puzzle_pos;
                self.jigsaw.tiles[a].connected_to.push(b);
                self.jigsaw.tiles[b].connected_to.push(a);
                proof {
                    assert(self.jigsaw.links() =~= link_pair(j0.links(), a as int, b as int));
                }
                motions.push(
                    Motion::Attach {
                        tile: a,
                        anchor: b,
                        dx: pa.x as isize - pb.x as isize,
                        dy: pa.y as isize - pb.y as isize,
                    },
                );
                let ghost d = step(pa, pb);
                assert(motions@ =~= seq![
                    Motion::Attach { tile: a, anchor: b, dx: d.0 as isize, dy: d.1 as isize },
                ]);
            },
            _ => {},
        }
        motions
    }

    /// Drops the player `id`, if listed.
    #[verifier::loop_isolation(false)]
    fn remove_player(&mut self, id: Id)
        requires
            old(self).wf(),
        ensures
            final(self).wf(),
            final(self).id == old(self).id,
            final(self).time == old(self).time,
            final(self).jigsaw == old(self).jigsaw,
            !lists(final(self).players@, id),
            forall|p: Player<P>|
                final(self).players@.contains(p) <==> old(self).players@.contains(p) && p.id != id,
    {
        let mut i: usize = 0;
        while i < self.players.len()
            invariant
                self.wf(),
                self.players@ == old(self).players@,
                self.jigsaw == old(self).jigsaw,
                self.id == old(self).id,
                self.time == old(self).time,
                i <= self.players@.len(),
                forall|k: int| 0 <= k < i ==> (#[trigger] self.players@[k]).id != id,
            decreases self.players@.len() - i,
        {
            if self.players[i].id.0 == id.0 {
                let ghost before = self.players@;
                self.players.remove(i);
                proof {
                    assert(self.players@ =~= before.subrange(0, i as int) + before.subrange(
                        i + 1,
                        before.len() as int,
                    ));
                    assert forall|p: Player<P>|
                        self.players@.contains(p) <==> before.contains(p) && p.id != id by {
                        if before.contains(p) && p.id != id {
                            let q = choose|q: int| 0 <= q < before.len() && before[q] == p;
                            if q < i {
                                assert(self.players@[q] == p);
                            } else {
                                assert(q != i);
                                assert(self.players@[q - 1] == p);
                            }
                        }
                        if self.players@.contains(p) {
                            let q = choose|q: int| 0 <= q < self.players@.len() && self.players@[q] == p;
                            if q < i {
                                assert(before[q] == p);
                            } else {
                                assert(before[q + 1] == p);
                                assert(before[q + 1].id != before[i as int].id);
                            }
                        }
                    }
                    assert forall|k: int| 0 <= k < self.players@.len() implies (#[trigger] self.players@[k]).id != id by {
                        if k >= i {
                            assert(before[k + 1].id != before[i as int].id);
                        }
                    }
                    assert forall|a: int, b: int|
                        0 <= a < self.players@.len() && 0 <= b < self.players@.len() && a != b
                            implies #[trigger] self.players@[a].id != #[trigger] self.players@[b].id by {
                        let a1 = if a < i { a } else { a + 1 };
                        let b1 = if b < i { b } else { b + 1 };
                        assert(before[a1].id != before[b1].id);
                    }
                    assert forall|a: int| 0 <= a < self.players@.len() implies match (#[trigger] self.players@[a]).tile_grabbed {
                        Some(g) => g.0 < self.jigsaw.tiles@.len(),
                        None => true,
                    } by {
                        let a1 = if a < i { a } else { a + 1 };
                        assert(self.players@[a] == before[a1]);
                    }
                }
                return;
            }
            i = i + 1;
        }
        assert forall|p: Player<P>|
            self.players@.contains(p) <==> old(self).players@.contains(p) && p.id != id by {
            if self.players@.contains(p) {
                let q = choose|q: int| 0 <= q < self.players@.len() && self.players@[q] == p;
                assert(self.players@[q].id != id);
            }
        }
    }

    /// Once per frame: each player that holds a tile the model says it does
    /// not hold lets go of it (this is how a refused grab is undone); each
    /// player that does hold its tile gets a move of that tile to its cursor
    /// plus its offset, returned as (tile, player, offset).
    pub fn reconcile(&mut self) -> (moves: Vec<(usize, Id, P)>)
        requires
            old(self).wf(),
        ensures
            final(self).wf(),
            final(self).id == old(self).id,
            final(self).time == old(self).time,
            final(self).jigsaw == old(self).jigsaw,
            final(self).players@.len() == old(self).players@.len(),
            forall|k: int|
                0 <= k < old(self).players@.len() ==> {
                    let p = old(self).players@[k];
                    &&& (#[trigger] final(self).players@[k]).id == p.id
                    &&& final(self).players@[k].name == p.name
                    &&& final(self).players@[k].tile_grabbed == match p.tile_grabbed {
                        Some(g) => if old(self).jigsaw.tiles@[g.0 as int].grabbed_by == Some(p.id) {
                            p.tile_grabbed
                        } else {
                            None
                        },
                        None => None,
                    }
                },
            final(self).holders_agree(),
            moves@ == held_moves(final(self).players@),
    {
        let ghost p0 = self.players@;
        let mut moves: Vec<(usize, Id, P)> = Vec::new();
        let mut k: usize = 0;
        while k < self.players.len()
            invariant
                self.wf(),
                self.id == old(self).id,
                self.time == old(self).time,
                self.jigsaw == old(self).jigsaw,
                p0 == old(self).players@,
                self.players@.len() == p0.len(),
                k <= p0.len(),
                forall|j: int|
                    0 <= j < p0.len() ==> {
                        let p = p0[j];
                        &&& (#[trigger] self.players@[j]).id == p.id
                        &&& self.players@[j].name == p.name
                        &&& self.players@[j].tile_grabbed == if j < k {
                            match p.tile_grabbed {
                                Some(g) => if self.jigsaw.tiles@[g.0 as int].grabbed_by == Some(p.id) {
                                    p.tile_grabbed
                                } else {
                                    None
                                },
                                None => None,
                            }
                        } else {
                            p.tile_grabbed
                        }
                    },
                moves@ == held_moves(self.players@.subrange(0, k as int)),
            decreases p0.len() - k,
        {
            let id = self.players[k].id;
            match self.players[k].tile_grabbed {
                Some(g) => {
                    let held = match self.jigsaw.tiles[g.0].grabbed_by {
                        Some(owner) => owner.0 == id.0,
                        None => false,
                    };
                    if held {
                        moves.push((g.0, id, g.1));
                        assert(self.players@.subrange(0, k + 1).drop_last() =~= self.players@.subrange(
                            0,
                            k as int,
                        ));
                    } else {
                        let ghost before = self.players@;
                        self.players[k].tile_grabbed = None;
                        proof {
                            assert forall|a: int, b: int|
                                0 <= a < self.players@.len() && 0 <= b < self.players@.len() && a != b
                                    implies #[trigger] self.players@[a].id != #[trigger] self.players@[b].id by {
                                assert(before[a].id != before[b].id);
                            }
                            assert forall|a: int| 0 <= a < self.players@.len() implies match (#[trigger] self.players@[a]).tile_grabbed {
                                Some(g) => g.0 < self.jigsaw.tiles@.len(),
                                None => true,
                            } by {
                                if a != k {
                                    assert(self.players@[a] == before[a]);
                                }
                            }
                            assert(self.players@.subrange(0, k as int) =~= before.subrange(0, k as int));
                            assert(self.players@.subrange(0, k + 1).drop_last() =~= self.players@.subrange(
                                0,
                                k as int,
                            ));
                        }
                    }
                },
                None => {
                    assert(self.players@.subrange(0, k + 1).drop_last() =~= self.players@.subrange(
                        0,
                        k as int,
                    ));
                },
            }
            k = k + 1;
        }
        assert(self.players@.subrange(0, self.players@.len() as int) =~= self.players@);
        moves
    }
}

/// A room's configuration and tile snapshot agree: the grid is non-empty and
/// small enough, there is one tile per cell, and connections name tiles of
/// the room and are listed on both sides.
pub open spec fn snapshot_ok<P>(config: RoomConfig, tiles: Seq<TileState<P>>) -> bool {
    &&& config.size.x >= 1
    &&& config.size.y >= 1
    &&& config.size.x * config.size.y <= isize::MAX
    &&& tiles.len() == config.size.x * config.size.y
    &&& links_in_range(tile_links(tiles))
    &&& links_symmetric(tile_links(tiles))
}

/// Whether a snapshot received on joining can seed a `Game`.
pub fn snapshot_fits<P: Copy>(config: RoomConfig, tiles: &Vec<TileState<P>>) -> (r: bool)
    ensures
        r == snapshot_ok(config, tiles@),
{
    let x = config.size.x;
    let y = config.size.y;
    if x == 0 || y == 0 {
        return false;
    }
    let cells = match x.checked_mul(y) {
        Some(c) => c,
        None => {
            return false;
        },
    };
    if cells > isize::MAX as usize {
        return false;
    }
    let n = tiles.len();
    if n != cells {
        return false;
    }
    let ghost adj = tile_links(tiles@);
    let mut a: usize = 0;
    while a < n
        invariant
            n == tiles@.len(),
            adj == tile_links(tiles@),
            a <= n,
            forall|i: int, k: int|
                0 <= i < a && 0 <= k < adj[i].len() ==> (#[trigger] adj[i][k]) < n && adj[adj[i][k] as int].contains(
                    i as usize,
                ),
        decreases n - a,
    {
        let conn = &tiles[a].connections;
        assert(conn@ == adj[a as int]);
        let mut k: usize = 0;
        while k < conn.len()
            invariant
                n == tiles@.len(),
                adj == tile_links(tiles@),
                a < n,
                conn@ == adj[a as int],
                k <= conn@.len(),
                forall|i: int, q: int|
                    0 <= i < a && 0 <= q < adj[i].len() ==> (#[trigger] adj[i][q]) < n && adj[adj[i][q] as int].contains(
                        i as usize,
                    ),
                forall|q: int|
                    0 <= q < k ==> (#[trigger] adj[a as int][q]) < n && adj[adj[a as int][q] as int].contains(
                        a,
                    ),
            decreases conn@.len() - k,
        {
            let b = conn[k];
            if b >= n {
                proof {
                    assert(adj[a as int][k as int] >= adj.len());
                }
                return false;
            }
            if !contains_index(&tiles[b].connections, a) {
                proof {
                    assert(adj[b as int] == tiles@[b as int].connections@);
                    assert(adj[a as int].contains(b));
                    assert(linked(adj, a as int, b as int));
                    assert(!linked(adj, b as int, a as int));
                }
                return false;
            }
            k = k + 1;
        }
        a = a + 1;
    }
    proof {
        assert forall|i: int, j: int| #[trigger] linked(adj, i, j) implies linked(adj, j, i) by {
            let q = choose|q: int| 0 <= q < adj[i].len() && adj[i][q] == j as usize;
            assert(adj[i][q] < n);
        }
    }
    true
}

/// Whether `v` holds `x`.
fn contains_index(v: &Vec<usize>, x: usize) -> (r: bool)
    ensures
        r == v@.contains(x),
{
    let mut i: usize = 0;
    while i < v.len()
        invariant
            i <= v@.len(),
            forall|k: int| 0 <= k < i ==> v@[k] != x,
        decreases v@.len() - i,
    {
        if v[i] == x {
            return true;
        }
        i = i + 1;
    }
    false
}

impl<P: Copy> Game<P> {
    /// Every player that holds a tile is, by the model, its owner.
    pub open spec fn holders_agree(&self) -> bool {
        forall|k: int|
            0 <= k < self.players@.len() ==> match (#[trigger] self.players@[k]).tile_grabbed {
                Some(g) => self.jigsaw.tiles@[g.0 as int].grabbed_by == Some(self.players@[k].id),
                None => true,
            }
    }

    /// After a reconciliation no two players hold the same tile: a player
    /// that lost a contested grab has let go of it.
    pub proof fn lemma_one_holder(&self, k1: int, k2: int)
        requires
            self.wf(),
            self.holders_agree(),
            0 <= k1 < self.players@.len(),
            0 <= k2 < self.players@.len(),
            self.players@[k1].tile_grabbed is Some,
            self.players@[k2].tile_grabbed is Some,
            self.players@[k1].tile_grabbed.unwrap().0 == self.players@[k2].tile_grabbed.unwrap().0,
        ensures
            k1 == k2,
    {
        if k1 != k2 {
            assert(self.players@[k1].id != self.players@[k2].id);
        }
    }
}

} // verus!
