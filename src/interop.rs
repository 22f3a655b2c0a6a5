use vstd::prelude::*;

verus! {

/// The identity of one connected participant.
#[derive(Clone, Copy, Debug, PartialEq, Eq, Hash, Structural)]
pub struct Id(pub u64);

/// Number of cells of the puzzle grid along each axis.
#[derive(Clone, Copy, Debug, PartialEq, Eq, Hash, Structural)]
pub struct GridSize {
    pub x: usize,
    pub y: usize,
}

/// The immutable description of a room's puzzle.
#[derive(Clone, Copy, Debug, PartialEq, Eq, Structural)]
pub struct RoomConfig {
    pub seed: u64,
    pub size: GridSize,
    pub image: usize,
}

/// The authoritative state of one tile, as the server holds and sends it.
#[derive(Clone, Debug)]
pub struct TileState<P> {
    pub grabbed_by: Option<Id>,
    pub pos: P,
    pub connections: Vec<usize>,
}

/// What the server sends to a client.
#[derive(Clone, Debug)]
pub enum ServerMessage<P> {
    SetupId { player_id: Id, room_config: RoomConfig, tiles: Vec<TileState<P>> },
    RoomNotFound,
    RoomCreated(String),
    PlayerDisconnected(Id),
    UpdatePos(Id, P),
    UpdatePlayerName(Id, String),
    TileGrabbed { player: Id, tile: usize, offset: P },
    TileReleased { player: Id, tile: usize, pos: P },
    ConnectTiles(usize, usize),
}

/// What a client sends to the server.
#[derive(Clone, Debug)]
pub enum ClientMessage<P> {
    UpdateName(String),
    CreateRoom(RoomConfig),
    SelectRoom(String),
    UpdatePos(P),
    GrabTile { tile: usize, offset: P },
    ReleaseTile(Vec<(usize, P)>),
    ConnectTiles(usize, usize),
}

} // verus!
