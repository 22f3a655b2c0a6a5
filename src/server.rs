//! The authoritative server state: players, rooms, and the handling of each
//! client request. Instead of sending, each handler returns the messages to
//! deliver, each with the id of its recipient.
use vstd::prelude::*;
use crate::connectivity::{
    lemma_link_pair, lemma_links_mutual, link_pair, linked, links_in_range, links_symmetric,
};
use crate::interop::{ClientMessage, Id, RoomConfig, ServerMessage, TileState};

verus! {

/// Length of a generated room name.
pub const ROOM_NAME_LEN: usize = 16;

/// Hands out player ids in increasing order.
#[derive(Clone, Debug, PartialEq, Eq, Structural)]
pub struct IdGen {
    pub next_id: u64,
}

impl IdGen {
    pub fn new() -> (r: Self)
        ensures
            r.next_id == 0,
    {
        IdGen { next_id: 0 }
    }

    /// Returns the next id; each id is handed out once.
    pub fn gen(&mut self) -> (id: Id)
        requires
            old(self).next_id < u64::MAX,
        ensures
            id == Id(old(self).next_id),
            final(self).next_id == old(self).next_id + 1,
    {
        let id = Id(self.next_id);
        self.next_id = self.next_id + 1;
        id
    }
}

pub open spec fn is_alphanumeric(c: char) -> bool {
    ('a' <= c && c <= 'z') || ('A' <= c && c <= 'Z') || ('0' <= c && c <= '9')
}

/// Relies on rand's `Alphanumeric` string sampler (`DistString::sample_string`
/// over the thread-local generator): `len` characters, each an ASCII letter or
/// digit.
#[verifier::external_body]
fn sample_alphanumeric(len: usize) -> (r: String)
    ensures
        r@.len() == len,
        forall|i: int| 0 <= i < r@.len() ==> is_alphanumeric(#[trigger] r@[i]),
{
    rand::distributions::DistString::sample_string(
        &rand::distributions::Alphanumeric,
        &mut rand::thread_rng(),
        len,
    )
}

/// A random room name.
pub fn create_room() -> (r: String)
    ensures
        r@.len() == ROOM_NAME_LEN,
        forall|i: int| 0 <= i < r@.len() ==> is_alphanumeric(#[trigger] r@[i]),
{
    sample_alphanumeric(ROOM_NAME_LEN)
}

pub struct Player {
    pub id: Id,
    /// The room this player is in; a fresh random name until it joins one.
    pub room: String,
    pub name: String,
}

pub struct Room<P> {
    pub name: String,
    pub tiles: Vec<TileState<P>>,
    pub config: RoomConfig,
}

pub struct State<P> {
    pub id_gen: IdGen,
    pub players: Vec<Player>,
    pub rooms: Vec<Room<P>>,
}

/// Random values drawn by the caller for a `CreateRoom` request: a candidate
/// name and one spawn position per tile.
pub struct NewRoom<P> {
    pub name: String,
    pub spawn: Vec<P>,
}

/// The outcome of handling a request.
pub enum Handled<P> {
    /// The messages to deliver, in order, each with its recipient.
    Done(Vec<(Id, ServerMessage<P>)>),
    /// The drawn room name is taken; nothing changed. Draw another and retry.
    NameTaken,
}

/// Each tile's connection list.
pub open spec fn tile_links<P>(tiles: Seq<TileState<P>>) -> Seq<Seq<usize>> {
    tiles.map_values(|t: TileState<P>| t.connections@)
}

/// The ids of `players`, in order, that are in `room`, leaving out `except`.
pub open spec fn room_peers(players: Seq<Player>, room: Seq<char>, except: Option<Id>) -> Seq<Id>
    decreases players.len(),
{
    if players.len() == 0 {
        seq![]
    } else {
        let rest = room_peers(players.drop_last(), room, except);
        let p = players.last();
        if p.room@ == room && except != Some(p.id) {
            rest.push(p.id)
        } else {
            rest
        }
    }
}

/// The ids of all `players`, in order.
pub open spec fn all_ids(players: Seq<Player>) -> Seq<Id> {
    players.map_values(|p: Player| p.id)
}

/// One copy of `m` for each of `ids`.
pub open spec fn addressed<P>(ids: Seq<Id>, m: ServerMessage<P>) -> Seq<(Id, ServerMessage<P>)> {
    ids.map_values(|i: Id| (i, m))
}

/// A message that carries no tile list, so that copying it keeps it equal.
pub open spec fn is_light<P>(m: ServerMessage<P>) -> bool {
    !(m is SetupId)
}

/// What each tile holds: owner, position and connection list.
pub open spec fn tiles_view<P>(tiles: Seq<TileState<P>>) -> Seq<(Option<Id>, P, Seq<usize>)> {
    tiles.map_values(|t: TileState<P>| (t.grabbed_by, t.pos, t.connections@))
}

pub(crate) fn copy_indices(v: &Vec<usize>) -> (r: Vec<usize>)
    ensures
        r@ == v@,
{
    let mut r: Vec<usize> = Vec::new();
    let mut i: usize = 0;
    while i < v.len()
        invariant
            i <= v@.len(),
            r@ == v@.subrange(0, i as int),
        decreases v@.len() - i,
    {
        r.push(v[i]);
        assert(r@ =~= v@.subrange(0, i + 1));
        i = i + 1;
    }
    assert(r@ =~= v@);
    r
}

/// A copy of a room's tiles, as sent to a player that joins it.
fn copy_tiles<P: Copy>(tiles: &Vec<TileState<P>>) -> (r: Vec<TileState<P>>)
    ensures
        tiles_view(r@) == tiles_view(tiles@),
{
    let mut r: Vec<TileState<P>> = Vec::new();
    let mut i: usize = 0;
    while i < tiles.len()
        invariant
            i <= tiles@.len(),
            r@.len() == i,
            forall|k: int|
                0 <= k < i ==> (#[trigger] r@[k]).grabbed_by == tiles@[k].grabbed_by && r@[k].pos
                    == tiles@[k].pos && r@[k].connections@ == tiles@[k].connections@,
        decreases tiles@.len() - i,
    {
        let t = &tiles[i];
        r.push(
            TileState {
                grabbed_by: t.grabbed_by,
                pos: t.pos,
                connections: copy_indices(&t.connections),
            },
        );
        i = i + 1;
    }
    assert(tiles_view(r@) =~= tiles_view(tiles@));
    r
}

fn copy_message<P: Copy>(m: &ServerMessage<P>) -> (r: ServerMessage<P>)
    ensures
        is_light(*m) ==> r == *m,
{
    match m {
        ServerMessage::SetupId { player_id, room_config, tiles } => ServerMessage::SetupId {
            player_id: *player_id,
            room_config: *room_config,
            tiles: copy_tiles(tiles),
        },
        ServerMessage::RoomNotFound => ServerMessage::RoomNotFound,
        ServerMessage::RoomCreated(name) => ServerMessage::RoomCreated(name.clone()),
        ServerMessage::PlayerDisconnected(id) => ServerMessage::PlayerDisconnected(*id),
        ServerMessage::UpdatePos(id, pos) => ServerMessage::UpdatePos(*id, *pos),
        ServerMessage::UpdatePlayerName(id, name) => ServerMessage::UpdatePlayerName(
            *id,
            name.clone(),
        ),
        ServerMessage::TileGrabbed { player, tile, offset } => ServerMessage::TileGrabbed {
            player: *player,
            tile: *tile,
            offset: *offset,
        },
        ServerMessage::TileReleased { player, tile, pos } => ServerMessage::TileReleased {
            player: *player,
            tile: *tile,
            pos: *pos,
        },
        ServerMessage::ConnectTiles(a, b) => ServerMessage::ConnectTiles(*a, *b),
    }
}

/// Nothing changed.
pub open spec fn unchanged<P: Copy>(old: State<P>, new: State<P>) -> bool {
    new.id_gen == old.id_gen && new.players@ == old.players@ && new.rooms@ == old.rooms@
}

/// Only the tiles of room `ri` changed, and they now are `tiles`.
pub open spec fn only_tiles_changed<P: Copy>(
    old: State<P>,
    new: State<P>,
    ri: int,
    tiles: Seq<TileState<P>>,
) -> bool {
    &&& new.id_gen == old.id_gen
    &&& new.players@ == old.players@
    &&& new.rooms@.len() == old.rooms@.len()
    &&& forall|j: int| 0 <= j < old.rooms@.len() && j != ri ==> new.rooms@[j] == old.rooms@[j]
    &&& new.rooms@[ri].name == old.rooms@[ri].name
    &&& new.rooms@[ri].config == old.rooms@[ri].config
    &&& new.rooms@[ri].tiles@ == tiles
}

/// The tiles after each `(index, position)` pair, in order, moved its tile
/// (pairs with an index out of range are skipped).
pub open spec fn place_all<P>(tiles: Seq<TileState<P>>, updates: Seq<(usize, P)>) -> Seq<
    TileState<P>,
>
    decreases updates.len(),
{
    if updates.len() == 0 {
        tiles
    } else {
        let prev = place_all(tiles, updates.drop_last());
        let (t, p) = updates.last();
        if t < prev.len() {
            prev.update(t as int, TileState { pos: p, ..prev[t as int] })
        } else {
            prev
        }
    }
}

/// The tiles after a release: every pair moves its tile, and the first
/// pair's tile, the one that was held, is free again.
pub open spec fn released<P>(tiles: Seq<TileState<P>>, updates: Seq<(usize, P)>) -> Seq<
    TileState<P>,
> {
    let placed = place_all(tiles, updates);
    if updates.len() > 0 && updates[0].0 < placed.len() {
        let t = updates[0].0 as int;
        placed.update(t, TileState { grabbed_by: None, ..placed[t] })
    } else {
        placed
    }
}

/// The outcome of a grab request of `tile` by `id`: granted only when the
/// tile exists in the player's room and nobody holds it.
pub open spec fn grab_done<P: Copy>(
    old: State<P>,
    new: State<P>,
    id: Id,
    tile: usize,
    offset: P,
    out: Seq<(Id, ServerMessage<P>)>,
) -> bool {
    let room = old.room_of(id);
    let ri = old.room_index(room);
    if old.has_room(room) && tile < old.rooms@[ri].tiles@.len()
        && old.rooms@[ri].tiles@[tile as int].grabbed_by is None {
        let t = old.rooms@[ri].tiles@[tile as int];
        &&& only_tiles_changed(
            old,
            new,
            ri,
            old.rooms@[ri].tiles@.update(tile as int, TileState { grabbed_by: Some(id), ..t }),
        )
        &&& out == addressed(
            room_peers(old.players@, room, Some(id)),
            ServerMessage::TileGrabbed { player: id, tile, offset },
        )
    } else {
        unchanged(old, new) && out.len() == 0
    }
}

/// The outcome of a release by `id` of the group listed in `updates`.
pub open spec fn release_done<P: Copy>(
    old: State<P>,
    new: State<P>,
    id: Id,
    updates: Seq<(usize, P)>,
    out: Seq<(Id, ServerMessage<P>)>,
) -> bool {
    let room = old.room_of(id);
    let ri = old.room_index(room);
    if old.has_room(room) {
        &&& only_tiles_changed(old, new, ri, released(old.rooms@[ri].tiles@, updates))
        &&& out == if updates.len() > 0 {
            addressed(
                room_peers(old.players@, room, Some(id)),
                ServerMessage::TileReleased { player: id, tile: updates[0].0, pos: updates[0].1 },
            )
        } else {
            seq![]
        }
    } else {
        unchanged(old, new) && out.len() == 0
    }
}

/// The outcome of a request by `id` to connect tiles `a` and `b`; every
/// player in the room, the requester too, is told.
pub open spec fn connect_done<P: Copy>(
    old: State<P>,
    new: State<P>,
    id: Id,
    a: usize,
    b: usize,
    out: Seq<(Id, ServerMessage<P>)>,
) -> bool {
    let room = old.room_of(id);
    let ri = old.room_index(room);
    let tiles = old.rooms@[ri].tiles@;
    if old.has_room(room) && a < tiles.len() && b < tiles.len() {
        &&& new.id_gen == old.id_gen
        &&& new.players@ == old.players@
        &&& new.rooms@.len() == old.rooms@.len()
        &&& forall|j: int| 0 <= j < old.rooms@.len() && j != ri ==> new.rooms@[j] == old.rooms@[j]
        &&& new.rooms@[ri].name == old.rooms@[ri].name
        &&& new.rooms@[ri].config == old.rooms@[ri].config
        &&& new.rooms@[ri].tiles@.len() == tiles.len()
        &&& forall|t: int|
            0 <= t < tiles.len() ==> (#[trigger] new.rooms@[ri].tiles@[t]).pos == tiles[t].pos
                && new.rooms@[ri].tiles@[t].grabbed_by == tiles[t].grabbed_by
        &&& tile_links(new.rooms@[ri].tiles@) == link_pair(tile_links(tiles), a as int, b as int)
        &&& out == addressed(room_peers(old.players@, room, None), ServerMessage::<P>::ConnectTiles(a, b))
    } else {
        unchanged(old, new) && out.len() == 0
    }
}

proof fn lemma_place_all<P>(tiles: Seq<TileState<P>>, updates: Seq<(usize, P)>)
    ensures
        place_all(tiles, updates).len() == tiles.len(),
        tile_links(place_all(tiles, updates)) == tile_links(tiles),
    decreases updates.len(),
{
    if updates.len() > 0 {
        lemma_place_all(tiles, updates.drop_last());
        let prev = place_all(tiles, updates.drop_last());
        assert(tile_links(place_all(tiles, updates)) =~= tile_links(prev));
    }
}

/// The name of every other player in `room`, each sent to `id`.
pub open spec fn names_for<P>(players: Seq<Player>, room: Seq<char>, id: Id) -> Seq<
    (Id, ServerMessage<P>),
>
    decreases players.len(),
{
    if players.len() == 0 {
        seq![]
    } else {
        let rest = names_for(players.drop_last(), room, id);
        let p = players.last();
        if p.room@ == room && p.id != id {
            rest.push((id, ServerMessage::UpdatePlayerName(p.id, p.name)))
        } else {
            rest
        }
    }
}

/// The outcome of a cursor update from `id`: relayed to the other players
/// of its room, if that room exists.
pub open spec fn pos_done<P: Copy>(
    old: State<P>,
    new: State<P>,
    id: Id,
    pos: P,
    out: Seq<(Id, ServerMessage<P>)>,
) -> bool {
    let room = old.room_of(id);
    &&& unchanged(old, new)
    &&& out == if old.has_room(room) {
        addressed(room_peers(old.players@, room, Some(id)), ServerMessage::UpdatePos(id, pos))
    } else {
        seq![]
    }
}

/// The outcome of a rename of `id`: stored, and told to the other players of
/// its room.
pub open spec fn rename_done<P: Copy>(
    old: State<P>,
    new: State<P>,
    id: Id,
    name: String,
    out: Seq<(Id, ServerMessage<P>)>,
) -> bool {
    let pi = old.player_index(id);
    &&& new.id_gen == old.id_gen
    &&& new.rooms@ == old.rooms@
    &&& new.players@ == old.players@.update(pi, Player { name: name, ..old.players@[pi] })
    &&& out == addressed(
        room_peers(old.players@, old.room_of(id), Some(id)),
        ServerMessage::<P>::UpdatePlayerName(id, name),
    )
}

/// The outcome of a request by `id` to join the room named `name`. On
/// success the player moves there and gets the room's configuration and a
/// snapshot of its tiles, then the names of the players already there, who
/// in turn get the newcomer's name.
pub open spec fn join_done<P: Copy>(
    old: State<P>,
    new: State<P>,
    id: Id,
    name: Seq<char>,
    out: Seq<(Id, ServerMessage<P>)>,
) -> bool {
    let pi = old.player_index(id);
    if old.has_room(name) {
        let r = old.rooms@[old.room_index(name)];
        &&& new.id_gen == old.id_gen
        &&& new.rooms@ == old.rooms@
        &&& new.players@ == old.players@.update(pi, Player { room: r.name, ..old.players@[pi] })
        &&& out.len() >= 1
        &&& out[0].0 == id
        &&& match out[0].1 {
            ServerMessage::SetupId { player_id, room_config, tiles } => player_id == id
                && room_config == r.config && tiles_view(tiles@) == tiles_view(r.tiles@),
            _ => false,
        }
        &&& out.drop_first() == names_for::<P>(old.players@, name, id) + addressed(
            room_peers(old.players@, name, Some(id)),
            ServerMessage::<P>::UpdatePlayerName(id, old.players@[pi].name),
        )
    } else {
        unchanged(old, new) && out == seq![(id, ServerMessage::<P>::RoomNotFound)]
    }
}

/// The outcome of a request by `id` to create a room with `config`, named
/// `name`, with its tiles at `spawn`. The requester does not join it.
pub open spec fn create_done<P: Copy>(
    old: State<P>,
    new: State<P>,
    id: Id,
    config: RoomConfig,
    name: String,
    spawn: Seq<P>,
    result: Handled<P>,
) -> bool {
    if old.has_room(name@) {
        unchanged(old, new) && result is NameTaken
    } else {
        let room = new.rooms@.last();
        &&& new.id_gen == old.id_gen
        &&& new.players@ == old.players@
        &&& new.rooms@.len() == old.rooms@.len() + 1
        &&& new.rooms@.drop_last() == old.rooms@
        &&& room.name == name
        &&& room.config == config
        &&& tiles_view(room.tiles@) == spawn.map_values(|p: P| (None::<Id>, p, Seq::<usize>::empty()))
        &&& match result {
            Handled::Done(out) => out@ == seq![(id, ServerMessage::<P>::RoomCreated(name))],
            Handled::NameTaken => false,
        }
    }
}

/// The outcome of any request from `id`.
pub open spec fn handled<P: Copy>(
    old: State<P>,
    new: State<P>,
    id: Id,
    message: ClientMessage<P>,
    fresh: NewRoom<P>,
    result: Handled<P>,
) -> bool {
    match message {
        ClientMessage::CreateRoom(config) => create_done(
            old,
            new,
            id,
            config,
            fresh.name,
            fresh.spawn@,
            result,
        ),
        _ => match result {
            Handled::Done(out) => match message {
                ClientMessage::UpdateName(name) => rename_done(old, new, id, name, out@),
                ClientMessage::SelectRoom(name) => join_done(old, new, id, name@, out@),
                ClientMessage::UpdatePos(pos) => pos_done(old, new, id, pos, out@),
                ClientMessage::GrabTile { tile, offset } => grab_done(
                    old,
                    new,
                    id,
                    tile,
                    offset,
                    out@,
                ),
                ClientMessage::ReleaseTile(updates) => release_done(old, new, id, updates@, out@),
                ClientMessage::ConnectTiles(a, b) => connect_done(old, new, id, a, b, out@),
                ClientMessage::CreateRoom(_) => false,
            },
            Handled::NameTaken => false,
        },
    }
}

impl<P: Copy> State<P> {
    /// Where the player with this id is listed.
    pub open spec fn player_index(&self, id: Id) -> int {
        choose|i: int| 0 <= i < self.players@.len() && self.players@[i].id == id
    }

    /// The room of the player with this id.
    pub open spec fn room_of(&self, id: Id) -> Seq<char> {
        self.players@[self.player_index(id)].room@
    }

    /// Where the room with this name is listed.
    pub open spec fn room_index(&self, name: Seq<char>) -> int {
        choose|i: int| 0 <= i < self.rooms@.len() && self.rooms@[i].name@ == name
    }

    proof fn lemma_player_index(&self, i: int)
        requires
            self.wf(),
            0 <= i < self.players@.len(),
        ensures
            self.player_index(self.players@[i].id) == i,
            self.has_player(self.players@[i].id),
    {
        let id = self.players@[i].id;
        assert(0 <= i < self.players@.len() && self.players@[i].id == id);
        let j = self.player_index(id);
        if j != i {
            assert(self.players@[i].id != self.players@[j].id);
        }
    }

    proof fn lemma_room_index(&self, i: int)
        requires
            self.wf(),
            0 <= i < self.rooms@.len(),
        ensures
            self.room_index(self.rooms@[i].name@) == i,
            self.has_room(self.rooms@[i].name@),
    {
        let name = self.rooms@[i].name@;
        assert(0 <= i < self.rooms@.len() && self.rooms@[i].name@ == name);
        let j = self.room_index(name);
        if j != i {
            assert(self.rooms@[i].name@ != self.rooms@[j].name@);
        }
    }

    pub open spec fn wf(&self) -> bool {
        &&& forall|i: int|
            0 <= i < self.players@.len() ==> (#[trigger] self.players@[i]).id.0
                < self.id_gen.next_id
        &&& forall|i: int, j: int|
            0 <= i < self.players@.len() && 0 <= j < self.players@.len() && i != j
                ==> #[trigger] self.players@[i].id != #[trigger] self.players@[j].id
        &&& forall|i: int, j: int|
            0 <= i < self.rooms@.len() && 0 <= j < self.rooms@.len() && i != j
                ==> #[trigger] self.rooms@[i].name@ != #[trigger] self.rooms@[j].name@
        &&& forall|i: int|
            0 <= i < self.rooms@.len() ==> links_in_range(
                tile_links(#[trigger] self.rooms@[i].tiles@),
            ) && links_symmetric(tile_links(self.rooms@[i].tiles@))
    }

    /// A registered player has this id.
    pub open spec fn has_player(&self, id: Id) -> bool {
        exists|i: int| 0 <= i < self.players@.len() && #[trigger] self.players@[i].id == id
    }

    /// A room has this name.
    pub open spec fn has_room(&self, name: Seq<char>) -> bool {
        exists|i: int| 0 <= i < self.rooms@.len() && #[trigger] self.rooms@[i].name@ == name
    }

    pub fn new() -> (r: Self)
        ensures
            r.wf(),
            r.players@.len() == 0,
            r.rooms@.len() == 0,
            r.id_gen.next_id == 0,
    {
        State { id_gen: IdGen::new(), players: Vec::new(), rooms: Vec::new() }
    }

    /// The position of the player with this id.
    pub fn find_player(&self, id: Id) -> (r: Option<usize>)
        ensures
            match r {
                Some(i) => i < self.players@.len() && self.players@[i as int].id == id,
                None => !self.has_player(id),
            },
    {
        let mut i: usize = 0;
        while i < self.players.len()
            invariant
                i <= self.players@.len(),
                forall|k: int| 0 <= k < i ==> (#[trigger] self.players@[k]).id != id,
            decreases self.players@.len() - i,
        {
            if self.players[i].id.0 == id.0 {
                return Some(i);
            }
            i = i + 1;
        }
        None
    }

    /// The position of the room with this name.
    pub fn find_room(&self, name: &String) -> (r: Option<usize>)
        ensures
            match r {
                Some(i) => i < self.rooms@.len() && self.rooms@[i as int].name@ == name@,
                None => !self.has_room(name@),
            },
    {
        let mut i: usize = 0;
        while i < self.rooms.len()
            invariant
                i <= self.rooms@.len(),
                forall|k: int| 0 <= k < i ==> (#[trigger] self.rooms@[k]).name@ != name@,
            decreases self.rooms@.len() - i,
        {
            if self.rooms[i].name == *name {
                return Some(i);
            }
            i = i + 1;
        }
        None
    }

    /// Appends a copy of `m` for every player in `room` but `except`.
    fn send_to_room(
        &self,
        out: &mut Vec<(Id, ServerMessage<P>)>,
        room: &String,
        except: Option<Id>,
        m: &ServerMessage<P>,
    )
        requires
            is_light(*m),
        ensures
            final(out)@ == old(out)@ + addressed(room_peers(self.players@, room@, except), *m),
    {
        let ghost start = out@;
        let mut i: usize = 0;
        while i < self.players.len()
            invariant
                is_light(*m),
                i <= self.players@.len(),
                out@ == start + addressed(
                    room_peers(self.players@.subrange(0, i as int), room@, except),
                    *m,
                ),
            decreases self.players@.len() - i,
        {
            let ghost before = room_peers(self.players@.subrange(0, i as int), room@, except);
            assert(self.players@.subrange(0, i + 1).drop_last() =~= self.players@.subrange(
                0,
                i as int,
            ));
            let p = &self.players[i];
            let skip = match except {
                Some(e) => e.0 == p.id.0,
                None => false,
            };
            if p.room == *room && !skip {
                out.push((p.id, copy_message(m)));
                assert(addressed(before.push(p.id), *m) =~= addressed(before, *m).push((p.id, *m)));
            }
            i = i + 1;
        }
        assert(self.players@.subrange(0, self.players@.len() as int) =~= self.players@);
    }

    /// Appends a copy of `m` for every player.
    fn send_to_all(&self, out: &mut Vec<(Id, ServerMessage<P>)>, m: &ServerMessage<P>)
        requires
            is_light(*m),
        ensures
            final(out)@ == old(out)@ + addressed(all_ids(self.players@), *m),
    {
        let ghost start = out@;
        let mut i: usize = 0;
        while i < self.players.len()
            invariant
                is_light(*m),
                i <= self.players@.len(),
                out@ == start + addressed(all_ids(self.players@.subrange(0, i as int)), *m),
            decreases self.players@.len() - i,
        {
            assert(all_ids(self.players@.subrange(0, i + 1)) =~= all_ids(
                self.players@.subrange(0, i as int),
            ).push(self.players@[i as int].id));
            out.push((self.players[i].id, copy_message(m)));
            assert(addressed(all_ids(self.players@.subrange(0, i + 1)), *m) =~= addressed(
                all_ids(self.players@.subrange(0, i as int)),
                *m,
            ).push((self.players@[i as int].id, *m)));
            i = i + 1;
        }
        assert(self.players@.subrange(0, self.players@.len() as int) =~= self.players@);
    }

    fn grab_tile(&mut self, pi: usize, tile: usize, offset: P) -> (out: Vec<(Id, ServerMessage<P>)>)
        requires
            old(self).wf(),
            pi < old(self).players@.len(),
        ensures
            final(self).wf(),
            grab_done(*old(self), *final(self), old(self).players@[pi as int].id, tile, offset, out@),
    {
        proof {
            self.lemma_player_index(pi as int);
        }
        let id = self.players[pi].id;
        let room = self.players[pi].room.clone();
        let mut out: Vec<(Id, ServerMessage<P>)> = Vec::new();
        match self.find_room(&room) {
            Some(ri) => {
                proof {
                    self.lemma_room_index(ri as int);
                }
                if tile < self.rooms[ri].tiles.len() && self.rooms[ri].tiles[tile].grabbed_by.is_none() {
                    let ghost s0 = *self;
                    self.rooms[ri].tiles[tile].grabbed_by = Some(id);
                    proof {
                        assert(tile_links(self.rooms@[ri as int].tiles@) =~= tile_links(
                            s0.rooms@[ri as int].tiles@,
                        ));
                        assert forall|i: int| 0 <= i < self.rooms@.len() implies links_in_range(
                            tile_links(#[trigger] self.rooms@[i].tiles@),
                        ) && links_symmetric(tile_links(self.rooms@[i].tiles@)) by {
                            assert(links_in_range(tile_links(s0.rooms@[i].tiles@)));
                        }
                        assert(self.rooms@[ri as int].tiles@ =~= s0.rooms@[ri as int].tiles@.update(
                            tile as int,
                            TileState { grabbed_by: Some(id), ..s0.rooms@[ri as int].tiles@[tile as int] },
                        ));
                    }
                    self.send_to_room(
                        &mut out,
                        &room,
                        Some(id),
                        &ServerMessage::TileGrabbed { player: id, tile, offset },
                    );
                }
            },
            None => {},
        }
        out
    }

    fn release_tile(&mut self, pi: usize, updates: Vec<(usize, P)>) -> (out: Vec<(Id, ServerMessage<P>)>)
        requires
            old(self).wf(),
            pi < old(self).players@.len(),
        ensures
            final(self).wf(),
            release_done(*old(self), *final(self), old(self).players@[pi as int].id, updates@, out@),
    {
        proof {
            self.lemma_player_index(pi as int);
        }
        let id = self.players[pi].id;
        let room = self.players[pi].room.clone();
        let mut out: Vec<(Id, ServerMessage<P>)> = Vec::new();
        match self.find_room(&room) {
            Some(ri) => {
                proof {
                    self.lemma_room_index(ri as int);
                }
                let ghost s0 = *self;
                let ghost tiles0 = self.rooms@[ri as int].tiles@;
                if updates.len() > 0 {
                    let (t, p) = updates[0];
                    self.send_to_room(
                        &mut out,
                        &room,
                        Some(id),
                        &ServerMessage::TileReleased { player: id, tile: t, pos: p },
                    );
                }
                let mut k: usize = 0;
                while k < updates.len()
                    invariant
                        ri < self.rooms@.len(),
                        k <= updates@.len(),
                        s0.wf(),
                        ri < s0.rooms@.len(),
                        tiles0 == s0.rooms@[ri as int].tiles@,
                        only_tiles_changed(
                            s0,
                            *self,
                            ri as int,
                            place_all(tiles0, updates@.subrange(0, k as int)),
                        ),
                    decreases updates@.len() - k,
                {
                    proof {
                        lemma_place_all(tiles0, updates@.subrange(0, k as int));
                        assert(updates@.subrange(0, k + 1).drop_last() =~= updates@.subrange(
                            0,
                            k as int,
                        ));
                    }
                    let (t, p) = updates[k];
                    if t < self.rooms[ri].tiles.len() {
                        self.rooms[ri].tiles[t].pos = p;
                    }
                    k = k + 1;
                }
                assert(updates@.subrange(0, updates@.len() as int) =~= updates@);
                proof {
                    lemma_place_all(tiles0, updates@);
                }
                if updates.len() > 0 {
                    let t = updates[0].0;
                    if t < self.rooms[ri].tiles.len() {
                        self.rooms[ri].tiles[t].grabbed_by = None;
                    }
                }
                proof {
                    assert(self.rooms@[ri as int].tiles@ =~= released(tiles0, updates@));
                    assert(tile_links(self.rooms@[ri as int].tiles@) =~= tile_links(tiles0));
                    assert forall|i: int| 0 <= i < self.rooms@.len() implies links_in_range(
                        tile_links(#[trigger] self.rooms@[i].tiles@),
                    ) && links_symmetric(tile_links(self.rooms@[i].tiles@)) by {
                        assert(links_in_range(tile_links(s0.rooms@[i].tiles@)));
                    }
                }
            },
            None => {},
        }
        out
    }

    fn connect_tiles(&mut self, pi: usize, a: usize, b: usize) -> (out: Vec<(Id, ServerMessage<P>)>)
        requires
            old(self).wf(),
            pi < old(self).players@.len(),
        ensures
            final(self).wf(),
            connect_done(*old(self), *final(self), old(self).players@[pi as int].id, a, b, out@),
    {
        proof {
            self.lemma_player_index(pi as int);
        }
        let room = self.players[pi].room.clone();
        let mut out: Vec<(Id, ServerMessage<P>)> = Vec::new();
        match self.find_room(&room) {
            Some(ri) => {
                proof {
                    self.lemma_room_index(ri as int);
                }
                if a < self.rooms[ri].tiles.len() && b < self.rooms[ri].tiles.len() {
                    let ghost s0 = *self;
                    let ghost tiles0 = self.rooms@[ri as int].tiles@;
                    self.rooms[ri].tiles[a].connections.push(b);
                    self.rooms[ri].tiles[b].connections.push(a);
                    proof {
                        let adj = tile_links(tiles0);
                        assert(links_in_range(adj) && links_symmetric(adj));
                        lemma_link_pair(adj, a as int, b as int);
                        assert(tile_links(self.rooms@[ri as int].tiles@) =~= link_pair(
                            adj,
                            a as int,
                            b as int,
                        ));
                        assert forall|i: int| 0 <= i < self.rooms@.len() implies links_in_range(
                            tile_links(#[trigger] self.rooms@[i].tiles@),
                        ) && links_symmetric(tile_links(self.rooms@[i].tiles@)) by {
                            if i != ri {
                                assert(links_in_range(tile_links(s0.rooms@[i].tiles@)));
                            }
                        }
                    }
                    self.send_to_room(&mut out, &room, None, &ServerMessage::ConnectTiles(a, b));
                }
            },
            None => {},
        }
        out
    }

    /// Appends, for `id`, the name of every other player in `room`.
    fn names_in_room(&self, out: &mut Vec<(Id, ServerMessage<P>)>, room: &String, id: Id)
        ensures
            final(out)@ == old(out)@ + names_for(self.players@, room@, id),
    {
        let ghost start = out@;
        let mut i: usize = 0;
        while i < self.players.len()
            invariant
                i <= self.players@.len(),
                out@ == start + names_for::<P>(self.players@.subrange(0, i as int), room@, id),
            decreases self.players@.len() - i,
        {
            assert(self.players@.subrange(0, i + 1).drop_last() =~= self.players@.subrange(
                0,
                i as int,
            ));
            let p = &self.players[i];
            if p.room == *room && p.id.0 != id.0 {
                out.push((id, ServerMessage::UpdatePlayerName(p.id, p.name.clone())));
            }
            i = i + 1;
        }
        assert(self.players@.subrange(0, self.players@.len() as int) =~= self.players@);
    }

    fn update_pos(&self, pi: usize, pos: P) -> (out: Vec<(Id, ServerMessage<P>)>)
        requires
            self.wf(),
            pi < self.players@.len(),
        ensures
            pos_done(*self, *self, self.players@[pi as int].id, pos, out@),
    {
        proof {
            self.lemma_player_index(pi as int);
        }
        let id = self.players[pi].id;
        let mut out: Vec<(Id, ServerMessage<P>)> = Vec::new();
        match self.find_room(&self.players[pi].room) {
            Some(_) => {
                self.send_to_room(
                    &mut out,
                    &self.players[pi].room,
                    Some(id),
                    &ServerMessage::UpdatePos(id, pos),
                );
            },
            None => {},
        }
        out
    }

    fn update_name(&mut self, pi: usize, name: String) -> (out: Vec<(Id, ServerMessage<P>)>)
        requires
            old(self).wf(),
            pi < old(self).players@.len(),
        ensures
            final(self).wf(),
            rename_done(*old(self), *final(self), old(self).players@[pi as int].id, name, out@),
    {
        proof {
            self.lemma_player_index(pi as int);
        }
        let id = self.players[pi].id;
        let mut out: Vec<(Id, ServerMessage<P>)> = Vec::new();
        self.send_to_room(
            &mut out,
            &self.players[pi].room,
            Some(id),
            &ServerMessage::UpdatePlayerName(id, name.clone()),
        );
        let ghost s0 = *self;
        self.players[pi].name = name;
        proof {
            assert forall|i: int, j: int|
                0 <= i < self.players@.len() && 0 <= j < self.players@.len() && i != j
                    implies #[trigger] self.players@[i].id != #[trigger] self.players@[j].id by {
                assert(s0.players@[i].id != s0.players@[j].id);
            }
            assert forall|i: int| 0 <= i < self.players@.len() implies (#[trigger] self.players@[i]).id.0
                < self.id_gen.next_id by {
                assert(s0.players@[i].id.0 < s0.id_gen.next_id);
            }
        }
        out
    }

    fn select_room(&mut self, pi: usize, name: String) -> (out: Vec<(Id, ServerMessage<P>)>)
        requires
            old(self).wf(),
            pi < old(self).players@.len(),
        ensures
            final(self).wf(),
            join_done(*old(self), *final(self), old(self).players@[pi as int].id, name@, out@),
    {
        proof {
            self.lemma_player_index(pi as int);
        }
        let id = self.players[pi].id;
        let mut out: Vec<(Id, ServerMessage<P>)> = Vec::new();
        match self.find_room(&name) {
            Some(ri) => {
                proof {
                    self.lemma_room_index(ri as int);
                }
                let room = &self.rooms[ri];
                out.push(
                    (
                        id,
                        ServerMessage::SetupId {
                            player_id: id,
                            room_config: room.config,
                            tiles: copy_tiles(&room.tiles),
                        },
                    ),
                );
                let ghost first = out@;
                self.names_in_room(&mut out, &name, id);
                let ghost second = out@;
                self.send_to_room(
                    &mut out,
                    &name,
                    Some(id),
                    &ServerMessage::UpdatePlayerName(id, self.players[pi].name.clone()),
                );
                let room_name = self.rooms[ri].name.clone();
                let ghost s0 = *self;
                self.players[pi].room = room_name;
                proof {
                    let tail = addressed(
                        room_peers(s0.players@, name@, Some(id)),
                        ServerMessage::UpdatePlayerName(id, s0.players@[pi as int].name),
                    );
                    assert(out@ == second + tail);
                    assert((second + tail).drop_first() =~= second.drop_first() + tail);
                    assert(second.drop_first() =~= names_for::<P>(s0.players@, name@, id));
                    assert(out@[0] == first[0]);
                    assert forall|i: int, j: int|
                        0 <= i < self.players@.len() && 0 <= j < self.players@.len() && i != j
                            implies #[trigger] self.players@[i].id != #[trigger] self.players@[j].id by {
                        assert(s0.players@[i].id != s0.players@[j].id);
                    }
                    assert forall|i: int| 0 <= i < self.players@.len() implies (#[trigger] self.players@[i]).id.0
                        < self.id_gen.next_id by {
                        assert(s0.players@[i].id.0 < s0.id_gen.next_id);
                    }
                }
            },
            None => {
                out.push((id, ServerMessage::RoomNotFound));
            },
        }
        out
    }

    fn create(&mut self, pi: usize, config: RoomConfig, fresh: NewRoom<P>) -> (r: Handled<P>)
        requires
            old(self).wf(),
            pi < old(self).players@.len(),
        ensures
            final(self).wf(),
            create_done(
                *old(self),
                *final(self),
                old(self).players@[pi as int].id,
                config,
                fresh.name,
                fresh.spawn@,
                r,
            ),
    {
        let id = self.players[pi].id;
        match self.find_room(&fresh.name) {
            Some(_) => Handled::NameTaken,
            None => {
                let spawn = &fresh.spawn;
                let mut tiles: Vec<TileState<P>> = Vec::new();
                let mut i: usize = 0;
                while i < spawn.len()
                    invariant
                        i <= spawn@.len(),
                        tiles@.len() == i,
                        forall|k: int|
                            0 <= k < i ==> (#[trigger] tiles@[k]).grabbed_by is None && tiles@[k].pos
                                == spawn@[k] && tiles@[k].connections@ == Seq::<usize>::empty(),
                    decreases spawn@.len() - i,
                {
                    tiles.push(TileState { grabbed_by: None, pos: spawn[i], connections: Vec::new() });
                    i = i + 1;
                }
                assert(tiles_view(tiles@) =~= spawn@.map_values(
                    |p: P| (None::<Id>, p, Seq::<usize>::empty()),
                ));
                let name = fresh.name;
                let ghost s0 = *self;
                let message = ServerMessage::RoomCreated(name.clone());
                self.rooms.push(Room { name, tiles, config });
                proof {
                    assert(self.rooms@.drop_last() =~= s0.rooms@);
                    let adj = tile_links(self.rooms@.last().tiles@);
                    assert forall|a: int, k: int| 0 <= a < adj.len() && 0 <= k < adj[a].len() implies (#[trigger] adj[a][k]) < adj.len() by {
                        assert(adj[a].len() == 0);
                    }
                    assert forall|a: int, b: int| #[trigger] crate::connectivity::linked(adj, a, b) implies crate::connectivity::linked(adj, b, a) by {
                        assert(adj[a].len() == 0);
                    }
                    assert forall|i: int, j: int|
                        0 <= i < self.rooms@.len() && 0 <= j < self.rooms@.len() && i != j
                            implies #[trigger] self.rooms@[i].name@ != #[trigger] self.rooms@[j].name@ by {
                        if i < s0.rooms@.len() && j < s0.rooms@.len() {
                            assert(s0.rooms@[i].name@ != s0.rooms@[j].name@);
                        }
                    }
                    assert forall|i: int| 0 <= i < self.rooms@.len() implies links_in_range(
                        tile_links(#[trigger] self.rooms@[i].tiles@),
                    ) && links_symmetric(tile_links(self.rooms@[i].tiles@)) by {
                        if i < s0.rooms@.len() {
                            assert(links_in_range(tile_links(s0.rooms@[i].tiles@)));
                        }
                    }
                }
                let mut out: Vec<(Id, ServerMessage<P>)> = Vec::new();
                out.push((id, message));
                Handled::Done(out)
            },
        }
    }

    /// Handles one request from the player `id`. `fresh` is only read for
    /// `CreateRoom`; for it the caller draws a candidate name and one spawn
    /// position per cell.
    pub fn handle(&mut self, id: Id, message: ClientMessage<P>, fresh: NewRoom<P>) -> (r: Handled<P>)
        requires
            old(self).wf(),
            old(self).has_player(id),
        ensures
            final(self).wf(),
            handled(*old(self), *final(self), id, message, fresh, r),
    {
        let pi = self.find_player(id).unwrap();
        proof {
            self.lemma_player_index(pi as int);
        }
        match message {
            ClientMessage::CreateRoom(config) => self.create(pi, config, fresh),
            ClientMessage::UpdatePos(pos) => Handled::Done(self.update_pos(pi, pos)),
            ClientMessage::UpdateName(name) => Handled::Done(self.update_name(pi, name)),
            ClientMessage::SelectRoom(name) => Handled::Done(self.select_room(pi, name)),
            ClientMessage::GrabTile { tile, offset } => Handled::Done(self.grab_tile(pi, tile, offset)),
            ClientMessage::ReleaseTile(updates) => Handled::Done(self.release_tile(pi, updates)),
            ClientMessage::ConnectTiles(a, b) => Handled::Done(self.connect_tiles(pi, a, b)),
        }
    }

    /// Registers a new connection: a player with a fresh id, no name, and a
    /// random room name of its own, so that it is in no shared room.
    pub fn connect(&mut self) -> (id: Id)
        requires
            old(self).wf(),
            old(self).id_gen.next_id < u64::MAX,
        ensures
            final(self).wf(),
            id == Id(old(self).id_gen.next_id),
            !old(self).has_player(id),
            final(self).id_gen.next_id == old(self).id_gen.next_id + 1,
            final(self).rooms@ == old(self).rooms@,
            final(self).players@.len() == old(self).players@.len() + 1,
            final(self).players@.drop_last() == old(self).players@,
            final(self).players@.last().id == id,
            final(self).players@.last().name@.len() == 0,
            final(self).players@.last().room@.len() == ROOM_NAME_LEN,
            forall|i: int|
                0 <= i < ROOM_NAME_LEN ==> is_alphanumeric(
                    #[trigger] final(self).players@.last().room@[i],
                ),
    {
        let id = self.id_gen.gen();
        let room = create_room();
        let ghost before = self.players@;
        self.players.push(Player { id, room, name: String::new() });
        assert(self.players@.drop_last() =~= before);
        id
    }

    /// Removes a player whose connection dropped, and tells every remaining
    /// player. Tiles it held stay held.
    pub fn disconnect(&mut self, id: Id) -> (out: Vec<(Id, ServerMessage<P>)>)
        requires
            old(self).wf(),
        ensures
            final(self).wf(),
            final(self).rooms@ == old(self).rooms@,
            final(self).id_gen == old(self).id_gen,
            !final(self).has_player(id),
            forall|p: Player|
                final(self).players@.contains(p) <==> old(self).players@.contains(p) && p.id != id,
            old(self).has_player(id) ==> out@ == addressed(
                all_ids(final(self).players@),
                ServerMessage::<P>::PlayerDisconnected(id),
            ),
            !old(self).has_player(id) ==> out@.len() == 0,
    {
        let mut out: Vec<(Id, ServerMessage<P>)> = Vec::new();
        match self.find_player(id) {
            Some(i) => {
                let ghost before = self.players@;
                self.players.remove(i);
                proof {
                    assert(self.players@ =~= before.subrange(0, i as int) + before.subrange(
                        i + 1,
                        before.len() as int,
                    ));
                    assert forall|p: Player|
                        self.players@.contains(p) <==> before.contains(p) && p.id != id by {
                        if before.contains(p) && p.id != id {
                            let q = choose|q: int| 0 <= q < before.len() && before[q] == p;
                            if q < i {
                                assert(self.players@[q] == p);
                            } else {
                                assert(q != i);
                                assert(self.players@[q - 1] == p);
                            }
                        }
                        if self.players@.contains(p) {
                            let q = choose|q: int| 0 <= q < self.players@.len() && self.players@[q] == p;
                            if q < i {
                                assert(before[q] == p);
                            } else {
                                assert(before[q + 1] == p);
                                assert(before[q + 1].id != before[i as int].id);
                            }
                        }
                    }
                    assert forall|k: int| 0 <= k < self.players@.len() implies (#[trigger] self.players@[k]).id != id by {
                        if k < i {
                            assert(before[k].id != before[i as int].id);
                        } else {
                            assert(before[k + 1].id != before[i as int].id);
                        }
                    }
                }
                self.send_to_all(&mut out, &ServerMessage::PlayerDisconnected(id));
                assert(out@ =~= addressed(all_ids(self.players@), ServerMessage::<P>::PlayerDisconnected(id)));
            },
            None => {},
        }
        out
    }
}

/// Two grab requests for one tile by two players of the same room: if the
/// first finds the tile free it becomes the owner, and the second changes
/// nothing and tells no one, whatever order the requests were made in.
pub proof fn lemma_grab_exclusive<P: Copy>(
    s0: State<P>,
    s1: State<P>,
    s2: State<P>,
    a: Id,
    b: Id,
    tile: usize,
    offset_a: P,
    offset_b: P,
    out1: Seq<(Id, ServerMessage<P>)>,
    out2: Seq<(Id, ServerMessage<P>)>,
)
    requires
        s0.wf(),
        s1.wf(),
        s0.has_player(a),
        s0.has_player(b),
        s0.room_of(a) == s0.room_of(b),
        grab_done(s0, s1, a, tile, offset_a, out1),
        grab_done(s1, s2, b, tile, offset_b, out2),
        s0.has_room(s0.room_of(a)),
        tile < s0.rooms@[s0.room_index(s0.room_of(a))].tiles@.len(),
        s0.rooms@[s0.room_index(s0.room_of(a))].tiles@[tile as int].grabbed_by is None,
    ensures
        s2.rooms@[s0.room_index(s0.room_of(a))].tiles@[tile as int].grabbed_by == Some(a),
        out2.len() == 0,
        s2.rooms@ == s1.rooms@,
{
    let ri = s0.room_index(s0.room_of(a));
    let room = s0.room_of(a);
    assert(s1.players@ == s0.players@);
    assert(s1.room_of(b) == room);
    assert(s1.rooms@[ri].name == s0.rooms@[ri].name);
    s1.lemma_room_index(ri);
    assert(s1.rooms@[ri].name@ == room) by {
        s0.lemma_room_index(ri);
        assert(0 <= ri < s0.rooms@.len() && s0.rooms@[ri].name@ == room);
    }
    assert(s1.has_room(room));
    assert(s1.room_index(room) == ri);
}

impl<P: Copy> State<P> {
    /// In every room, tile `x` lists tile `y` as connected exactly when `y`
    /// lists `x`; every request keeps it so.
    pub proof fn lemma_connections_mutual(&self, ri: int, x: int, y: int)
        requires
            self.wf(),
            0 <= ri < self.rooms@.len(),
        ensures
            linked(tile_links(self.rooms@[ri].tiles@), x, y) <==> linked(
                tile_links(self.rooms@[ri].tiles@),
                y,
                x,
            ),
    {
        lemma_links_mutual(tile_links(self.rooms@[ri].tiles@), x, y);
    }
}

} // verus!
