use jigsaw_party::interop::{ClientMessage, GridSize, Id, RoomConfig, ServerMessage};
use jigsaw_party::server::{create_room, Handled, IdGen, NewRoom, State, ROOM_NAME_LEN};

type Pos = (f32, f32);

fn no_room() -> NewRoom<Pos> {
    NewRoom { name: String::new(), spawn: Vec::new() }
}

fn config(x: usize, y: usize) -> RoomConfig {
    RoomConfig { seed: 42, size: GridSize { x, y }, image: 0 }
}

fn done(h: Handled<Pos>) -> Vec<(Id, ServerMessage<Pos>)> {
    match h {
        Handled::Done(out) => out,
        Handled::NameTaken => panic!("name taken"),
    }
}

/// A server with a room named `room` of `x` by `y` tiles, and two players in it.
fn two_players_in_room(x: usize, y: usize) -> (State<Pos>, Id, Id) {
    let mut state: State<Pos> = State::new();
    let a = state.connect();
    let b = state.connect();
    let spawn = (0..x * y).map(|i| (i as f32, -1.0)).collect();
    let out = done(state.handle(
        a,
        ClientMessage::CreateRoom(config(x, y)),
        NewRoom { name: "room".to_string(), spawn },
    ));
    assert_eq!(out.len(), 1);
    assert!(matches!(&out[0], (id, ServerMessage::RoomCreated(n)) if *id == a && n == "room"));
    done(state.handle(a, ClientMessage::SelectRoom("room".to_string()), no_room()));
    done(state.handle(b, ClientMessage::SelectRoom("room".to_string()), no_room()));
    (state, a, b)
}

#[test]
fn id_gen_hands_out_increasing_ids() {
    let mut gen = IdGen::new();
    assert_eq!(gen.gen(), Id(0));
    assert_eq!(gen.gen(), Id(1));
    assert_eq!(gen.gen(), Id(2));
    assert_eq!(gen.next_id, 3);
}

#[test]
fn room_names_are_sixteen_alphanumerics() {
    let a = create_room();
    let b = create_room();
    assert_eq!(a.chars().count(), ROOM_NAME_LEN);
    assert!(a.chars().all(|c| c.is_ascii_alphanumeric()));
    assert_ne!(a, b);
}

#[test]
fn connect_gives_fresh_ids_and_private_rooms() {
    let mut state: State<Pos> = State::new();
    let a = state.connect();
    let b = state.connect();
    assert_eq!(a, Id(0));
    assert_eq!(b, Id(1));
    assert_eq!(state.players.len(), 2);
    assert_ne!(state.players[0].room, state.players[1].room);
    assert_eq!(state.players[0].name, "");
}

#[test]
fn release_scenario_two_by_one() {
    let (mut state, a, b) = two_players_in_room(2, 1);
    let out = done(state.handle(a, ClientMessage::GrabTile { tile: 0, offset: (0.0, 0.0) }, no_room()));
    assert_eq!(out.len(), 1);
    assert!(matches!(out[0], (to, ServerMessage::TileGrabbed { player, tile: 0, .. }) if to == b && player == a));
    assert_eq!(state.rooms[0].tiles[0].grabbed_by, Some(a));

    let out = done(state.handle(a, ClientMessage::ReleaseTile(vec![(0, (5.0, 5.0))]), no_room()));
    assert_eq!(state.rooms[0].tiles[0].pos, (5.0, 5.0));
    assert_eq!(state.rooms[0].tiles[0].grabbed_by, None);
    assert_eq!(out.len(), 1);
    match &out[0] {
        (to, ServerMessage::TileReleased { player, tile, pos }) => {
            assert_eq!(*to, b);
            assert_eq!(*player, a);
            assert_eq!(*tile, 0);
            assert_eq!(*pos, (5.0, 5.0));
        }
        _ => panic!("expected a release"),
    }
}

#[test]
fn second_grab_of_a_held_tile_is_ignored() {
    let (mut state, a, b) = two_players_in_room(2, 2);
    done(state.handle(a, ClientMessage::GrabTile { tile: 3, offset: (0.0, 0.0) }, no_room()));
    let out = done(state.handle(b, ClientMessage::GrabTile { tile: 3, offset: (1.0, 1.0) }, no_room()));
    assert!(out.is_empty());
    assert_eq!(state.rooms[0].tiles[3].grabbed_by, Some(a));
}

#[test]
fn grab_out_of_range_does_nothing() {
    let (mut state, a, _) = two_players_in_room(2, 1);
    let out = done(state.handle(a, ClientMessage::GrabTile { tile: 9, offset: (0.0, 0.0) }, no_room()));
    assert!(out.is_empty());
    assert!(state.rooms[0].tiles.iter().all(|t| t.grabbed_by.is_none()));
}

#[test]
fn release_moves_the_whole_batch_and_frees_the_held_tile() {
    let (mut state, a, _) = two_players_in_room(3, 1);
    done(state.handle(a, ClientMessage::GrabTile { tile: 1, offset: (0.0, 0.0) }, no_room()));
    done(state.handle(
        a,
        ClientMessage::ReleaseTile(vec![(1, (2.0, 2.0)), (2, (3.0, 2.0)), (7, (9.0, 9.0))]),
        no_room(),
    ));
    let tiles = &state.rooms[0].tiles;
    assert_eq!(tiles[1].pos, (2.0, 2.0));
    assert_eq!(tiles[2].pos, (3.0, 2.0));
    assert_eq!(tiles[0].pos, (0.0, -1.0));
    assert_eq!(tiles[1].grabbed_by, None);
}

#[test]
fn connect_links_both_ways_and_tells_everyone() {
    let (mut state, a, b) = two_players_in_room(2, 2);
    let out = done(state.handle(a, ClientMessage::ConnectTiles(0, 1), no_room()));
    assert_eq!(state.rooms[0].tiles[0].connections, vec![1]);
    assert_eq!(state.rooms[0].tiles[1].connections, vec![0]);
    let recipients: Vec<Id> = out.iter().map(|(to, _)| *to).collect();
    assert_eq!(recipients, vec![a, b]);
    assert!(out.iter().all(|(_, m)| matches!(m, ServerMessage::ConnectTiles(0, 1))));
}

#[test]
fn connect_out_of_range_is_ignored() {
    let (mut state, a, _) = two_players_in_room(2, 1);
    let out = done(state.handle(a, ClientMessage::ConnectTiles(0, 5), no_room()));
    assert!(out.is_empty());
    assert!(state.rooms[0].tiles.iter().all(|t| t.connections.is_empty()));
}

#[test]
fn create_with_a_taken_name_asks_for_another() {
    let (mut state, a, _) = two_players_in_room(1, 1);
    let r = state.handle(
        a,
        ClientMessage::CreateRoom(config(1, 1)),
        NewRoom { name: "room".to_string(), spawn: vec![(0.0, 0.0)] },
    );
    assert!(matches!(r, Handled::NameTaken));
    assert_eq!(state.rooms.len(), 1);
}

#[test]
fn joining_a_missing_room_is_refused() {
    let mut state: State<Pos> = State::new();
    let a = state.connect();
    let before = state.players[0].room.clone();
    let out = done(state.handle(a, ClientMessage::SelectRoom("nowhere".to_string()), no_room()));
    assert_eq!(out.len(), 1);
    assert!(matches!(out[0], (to, ServerMessage::RoomNotFound) if to == a));
    assert_eq!(state.players[0].room, before);
}

#[test]
fn joining_sends_setup_then_names_both_ways() {
    let (mut state, a, _b) = two_players_in_room(2, 1);
    done(state.handle(a, ClientMessage::UpdateName("ann".to_string()), no_room()));
    let c = state.connect();
    let out = done(state.handle(c, ClientMessage::SelectRoom("room".to_string()), no_room()));
    match &out[0] {
        (to, ServerMessage::SetupId { player_id, room_config, tiles }) => {
            assert_eq!(*to, c);
            assert_eq!(*player_id, c);
            assert_eq!(room_config.size, GridSize { x: 2, y: 1 });
            assert_eq!(tiles.len(), 2);
            assert_eq!(tiles[1].pos, (1.0, -1.0));
        }
        _ => panic!("expected the setup first"),
    }
    assert!(matches!(&out[1], (to, ServerMessage::UpdatePlayerName(id, n)) if *to == c && *id == a && n == "ann"));
    assert_eq!(out.len(), 5);
    assert!(matches!(&out[3], (to, ServerMessage::UpdatePlayerName(id, _)) if *to == a && *id == c));
}

#[test]
fn cursor_updates_go_to_the_rest_of_the_room() {
    let (mut state, a, b) = two_players_in_room(1, 1);
    let outsider = state.connect();
    let out = done(state.handle(a, ClientMessage::UpdatePos((0.5, 0.25)), no_room()));
    assert_eq!(out.len(), 1);
    assert!(matches!(out[0], (to, ServerMessage::UpdatePos(id, (x, y))) if to == b && id == a && x == 0.5 && y == 0.25));
    let out = done(state.handle(outsider, ClientMessage::UpdatePos((0.0, 0.0)), no_room()));
    assert!(out.is_empty());
}

#[test]
fn disconnect_tells_everyone_left() {
    let (mut state, a, b) = two_players_in_room(1, 1);
    let c = state.connect();
    let out = state.disconnect(a);
    assert_eq!(state.players.len(), 2);
    assert_eq!(out.len(), 2);
    assert!(matches!(out[0], (to, ServerMessage::PlayerDisconnected(id)) if to == b && id == a));
    assert!(matches!(out[1], (to, ServerMessage::PlayerDisconnected(id)) if to == c && id == a));
    assert!(state.disconnect(a).is_empty());
}
