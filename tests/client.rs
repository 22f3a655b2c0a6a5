use std::collections::HashSet;

use jigsaw_party::client::{snapshot_fits, Game, Motion};
use jigsaw_party::interop::{ClientMessage, GridSize, Id, RoomConfig, ServerMessage, TileState};
use jigsaw_party::jigsaw::{GridPos, Jigsaw};

type Pos = (f32, f32);

fn snapshot(n: usize) -> Vec<TileState<Pos>> {
    (0..n).map(|i| TileState { grabbed_by: None, pos: (i as f32, 0.0), connections: Vec::new() }).collect()
}

fn game(x: usize, y: usize) -> Game<Pos> {
    let config = RoomConfig { seed: 42, size: GridSize { x, y }, image: 0 };
    Game::new(Id(7), "me".to_string(), config, &snapshot(x * y))
}

fn connect(g: &mut Game<Pos>, a: usize, b: usize) {
    g.apply(ServerMessage::ConnectTiles(a, b));
}

#[test]
fn generate_lays_tiles_out_in_rows() {
    let j = Jigsaw::generate(GridSize { x: 3, y: 2 });
    assert_eq!(j.tiles.len(), 6);
    assert_eq!(j.tiles[4].puzzle_pos, GridPos { x: 1, y: 1 });
    assert!(j.tiles.iter().all(|t| t.connected_to.is_empty() && t.grabbed_by.is_none()));
}

#[test]
fn group_of_an_unconnected_tile_is_itself() {
    let g = game(2, 2);
    let set = g.jigsaw.get_all_connected(3);
    assert_eq!(set, HashSet::from([3]));
}

#[test]
fn group_with_a_cycle_is_the_same_from_every_member() {
    let mut g = game(3, 2);
    connect(&mut g, 0, 1);
    connect(&mut g, 1, 4);
    connect(&mut g, 4, 3);
    connect(&mut g, 3, 0);
    let expected = HashSet::from([0, 1, 3, 4]);
    for t in [0, 1, 3, 4] {
        assert_eq!(g.jigsaw.get_all_connected(t), expected);
    }
    assert_eq!(g.jigsaw.get_all_connected(2), HashSet::from([2]));
    let list = g.jigsaw.connected_list(4);
    assert_eq!(list[0], 4);
    assert_eq!(list.len(), 4);
}

#[test]
fn connection_lists_stay_mutual() {
    let mut g = game(2, 2);
    connect(&mut g, 0, 2);
    connect(&mut g, 3, 2);
    for a in 0..4 {
        for b in 0..4 {
            assert_eq!(
                g.jigsaw.tiles[a].connected_to.contains(&b),
                g.jigsaw.tiles[b].connected_to.contains(&a)
            );
        }
    }
}

#[test]
fn connecting_asks_to_attach_next_to_the_anchor() {
    let mut g = game(2, 2);
    let motions = g.apply(ServerMessage::ConnectTiles(1, 0));
    assert_eq!(motions.len(), 1);
    assert!(matches!(motions[0], Motion::Attach { tile: 1, anchor: 0, dx: 1, dy: 0 }));
    let motions = g.apply(ServerMessage::ConnectTiles(0, 2));
    assert!(matches!(motions[0], Motion::Attach { tile: 0, anchor: 2, dx: 0, dy: -1 }));
}

#[test]
fn group_offsets_are_grid_differences() {
    let mut g = game(3, 3);
    connect(&mut g, 4, 5);
    connect(&mut g, 5, 8);
    let mut offsets = g.jigsaw.group_offsets(4);
    assert_eq!(offsets[0], (4, 0, 0));
    offsets.sort();
    assert_eq!(offsets, vec![(4, 0, 0), (5, 1, 0), (8, 1, 1)]);
}

#[test]
fn hovered_tile_prefers_the_latest_grab() {
    let mut g = game(3, 1);
    assert_eq!(g.hovered_tile(&vec![false, false, false]), None);
    assert_eq!(g.hovered_tile(&vec![true, true, false]), Some(1));
    g.time = 5;
    g.click(Some(0), (0.0, 0.0));
    assert_eq!(g.hovered_tile(&vec![true, true, false]), Some(0));
    assert_eq!(g.hovered_tile(&vec![false, true, true]), Some(2));
}

#[test]
fn click_takes_the_tile_and_stamps_its_group() {
    let mut g = game(2, 1);
    connect(&mut g, 0, 1);
    g.time = 3;
    let msg = g.click(Some(1), (0.25, 0.5));
    assert!(matches!(msg, Some(ClientMessage::GrabTile { tile: 1, offset: (x, y) }) if x == 0.25 && y == 0.5));
    assert_eq!(g.jigsaw.tiles[1].grabbed_by, Some(Id(7)));
    assert_eq!(g.jigsaw.tiles[0].grabbed_by, None);
    assert_eq!(g.jigsaw.tiles[0].last_interaction_time, 3);
    assert_eq!(g.jigsaw.tiles[1].last_interaction_time, 3);
    assert_eq!(g.players[0].tile_grabbed, Some((1, (0.25, 0.5))));
    assert!(g.click(None, (0.0, 0.0)).is_none());
}

#[test]
fn release_returns_the_group_held_tile_first() {
    let mut g = game(3, 1);
    connect(&mut g, 1, 2);
    assert!(g.release().is_none());
    g.click(Some(2), (0.0, 0.0));
    let group = g.release().unwrap();
    assert_eq!(group[0], 2);
    assert_eq!(group.len(), 2);
    assert_eq!(g.jigsaw.tiles[2].grabbed_by, None);
    assert_eq!(g.players[0].tile_grabbed, None);
}

#[test]
fn snap_candidates_are_unconnected_grid_neighbours() {
    let mut g = game(3, 2);
    connect(&mut g, 0, 1);
    let c = g.snap_candidates(&vec![0, 1]);
    assert_eq!(c, vec![(0, 3, 0, -1), (1, 2, -1, 0), (1, 4, 0, -1)]);
    assert!(g.snap_candidates(&vec![]).is_empty());
}

#[test]
fn grabs_by_others_are_recorded_and_lazily_register_them() {
    let mut g = game(2, 1);
    g.time = 9;
    let motions = g.apply(ServerMessage::TileGrabbed { player: Id(3), tile: 1, offset: (1.0, 2.0) });
    assert!(motions.is_empty());
    assert_eq!(g.players.len(), 2);
    assert_eq!(g.players[1].id, Id(3));
    assert_eq!(g.players[1].tile_grabbed, Some((1, (1.0, 2.0))));
    assert_eq!(g.jigsaw.tiles[1].grabbed_by, Some(Id(3)));
    assert_eq!(g.jigsaw.tiles[1].last_interaction_time, 9);
}

#[test]
fn release_by_another_player_settles_then_glides() {
    let mut g = game(2, 1);
    g.apply(ServerMessage::TileGrabbed { player: Id(3), tile: 0, offset: (0.5, 0.0) });
    let motions = g.apply(ServerMessage::TileReleased { player: Id(3), tile: 0, pos: (5.0, 5.0) });
    assert_eq!(motions.len(), 2);
    assert!(matches!(motions[0], Motion::Settle { tile: 0, player: Id(3) }));
    assert!(matches!(motions[1], Motion::Glide { tile: 0, pos: (x, y), offset: Some((ox, _)) } if x == 5.0 && y == 5.0 && ox == 0.5));
    assert_eq!(g.jigsaw.tiles[0].grabbed_by, None);
    assert_eq!(g.players[1].tile_grabbed, None);
}

#[test]
fn names_cursors_and_departures() {
    let mut g = game(1, 1);
    g.apply(ServerMessage::UpdatePlayerName(Id(4), "bo".to_string()));
    assert_eq!(g.players[1].name, "bo");
    let motions = g.apply(ServerMessage::UpdatePos(Id(4), (1.0, 1.0)));
    assert!(matches!(motions[0], Motion::Cursor { player: Id(4), .. }));
    assert_eq!(g.players.len(), 2);
    g.apply(ServerMessage::PlayerDisconnected(Id(4)));
    assert_eq!(g.players.len(), 1);
    assert_eq!(g.players[0].id, Id(7));
}

#[test]
fn the_loser_of_a_contested_grab_lets_go_on_reconcile() {
    let mut g = game(2, 1);
    g.click(Some(0), (0.0, 0.0));
    g.apply(ServerMessage::TileGrabbed { player: Id(3), tile: 0, offset: (0.0, 0.0) });
    let moves = g.reconcile();
    assert_eq!(g.players[0].tile_grabbed, None);
    assert_eq!(g.players[1].tile_grabbed, Some((0, (0.0, 0.0))));
    assert_eq!(moves, vec![(0, Id(3), (0.0, 0.0))]);
}

#[test]
fn snapshot_sets_owners_and_links() {
    let config = RoomConfig { seed: 1, size: GridSize { x: 2, y: 1 }, image: 0 };
    let mut tiles = snapshot(2);
    tiles[0].connections = vec![1];
    tiles[1].connections = vec![0];
    tiles[1].grabbed_by = Some(Id(2));
    let g: Game<Pos> = Game::new(Id(1), "x".to_string(), config, &tiles);
    assert_eq!(g.jigsaw.tiles[0].connected_to, vec![1]);
    assert_eq!(g.jigsaw.tiles[1].grabbed_by, Some(Id(2)));
    assert_eq!(g.players.len(), 1);
    assert_eq!(g.players[0].name, "x");
}

#[test]
fn snapshot_fits_checks_size_and_mutual_links() {
    let config = RoomConfig { seed: 1, size: GridSize { x: 2, y: 1 }, image: 0 };
    let mut tiles = snapshot(2);
    assert!(snapshot_fits(config, &tiles));
    tiles[0].connections = vec![1];
    assert!(!snapshot_fits(config, &tiles));
    tiles[1].connections = vec![0];
    assert!(snapshot_fits(config, &tiles));
    tiles[1].connections = vec![0, 5];
    assert!(!snapshot_fits(config, &tiles));
    assert!(!snapshot_fits(config, &snapshot(3)));
    let empty = RoomConfig { seed: 1, size: GridSize { x: 0, y: 1 }, image: 0 };
    assert!(!snapshot_fits(empty, &snapshot(0)));
    let huge = RoomConfig { seed: 1, size: GridSize { x: usize::MAX, y: 2 }, image: 0 };
    assert!(!snapshot_fits(huge, &snapshot(0)));
}
