use engineers::gamemanager::{GameManager, RequestStatus};
use engineers::gamestate::{get_tilemap_spritelist, GameState};
use engineers::pathfinding::TilePosition;
use engineers::requests::{Request, SpriteCreateRequest, SpriteMoveRequest, SpriteType};
use engineers::sprites::{SpriteID, WorldPoint};
use engineers::tiledmap::{LayerData, Property, Tile, TileSet, TiledMap};

fn property(value: bool) -> Property {
    Property { name: "collision".to_string(), tiled_type: "bool".to_string(), value }
}

fn layer(width: i64, height: i64, data: Vec<i64>) -> LayerData {
    LayerData {
        data,
        height,
        id: 1,
        name: "ground".to_string(),
        opacity: 1,
        tiled_type: "tilelayer".to_string(),
        visible: true,
        width,
        x: 0,
        y: 0,
    }
}

fn open_map(width: i64, height: i64) -> TiledMap {
    TiledMap {
        height,
        width,
        tileheight: 32,
        tilewidth: 64,
        layers: vec![layer(width, height, vec![1; (width * height) as usize])],
        tilesets: vec![TileSet {
            columns: 2,
            firstgid: 1,
            image: "tileset.png".to_string(),
            imageheight: 64,
            imagewidth: 128,
            margin: 0,
            name: "tiles".to_string(),
            spacing: 0,
            tilecount: 2,
            tileheight: 64,
            tiles: vec![
                Tile { id: 0, properties: vec![property(false)] },
                Tile { id: 1, properties: vec![property(true)] },
            ],
            tilewidth: 64,
        }],
    }
}

fn engine(width: i64, height: i64) -> GameManager {
    let uuids: Vec<u32> = (0..(width * height) as u32).map(|i| 1000 + i).collect();
    GameManager::initialize(open_map(width, height), &uuids)
}

fn create(tick: u32, uuid: u32, x: i32, y: i32) -> Request {
    Request::SpriteCreate(SpriteCreateRequest {
        tick,
        sprite_uuid: uuid,
        sprite_type: SpriteType::Engineer,
        position: TilePosition { x, y },
    })
}

fn move_to(tick: u32, uuid: u32, x: i32, y: i32) -> Request {
    Request::SpriteMove(SpriteMoveRequest { tick, sprite_uuid: uuid, position: TilePosition { x, y } })
}

fn advance_to(manager: &mut GameManager, tick: u32) {
    while manager.last_tick < tick {
        let next = manager.last_tick + 1;
        manager.process_tick(next);
    }
}

fn unit_position(state: &GameState, uuid: u32) -> Option<(i32, i32, usize)> {
    match state.sprite_map.get(&uuid) {
        Some(SpriteID::Engineer(e)) => Some((e.x, e.y, e.current_path.len())),
        _ => None,
    }
}

fn history_ticks(manager: &GameManager) -> Vec<u32> {
    let mut ticks: Vec<u32> = manager.game_state_history.keys().copied().collect();
    ticks.sort();
    ticks
}

#[test]
fn initialize_seeds_tick_zero() {
    let manager = engine(3, 2);
    assert_eq!(manager.last_tick, 0);
    assert_eq!(history_ticks(&manager), vec![0]);
    assert_eq!(manager.current_game_state.sprite_map.len(), 6);
    assert_eq!(manager.current_game_state.sprite_uuid_list, vec![1000, 1001, 1002, 1003, 1004, 1005]);
    assert_eq!(manager.requests.GetNumberOfRequests(), 0);
}

#[test]
fn tiles_take_frames_from_the_map() {
    let mut map = open_map(2, 1);
    map.layers[0].data = vec![5, 0];
    let state = get_tilemap_spritelist(&map, &vec![7, 7]);
    // The second tile reuses uuid 7: it replaces the first and the order lists it once.
    assert_eq!(state.sprite_uuid_list, vec![7]);
    match state.sprite_map.get(&7) {
        Some(SpriteID::Tile(t)) => {
            assert_eq!((t.x, t.y, t.layer), (1, 0, 0));
            assert_eq!(t.frame_number, u32::MAX);
        }
        _ => panic!("tile expected"),
    }
    let state = get_tilemap_spritelist(&map, &vec![1, 2]);
    match state.sprite_map.get(&1) {
        Some(SpriteID::Tile(t)) => assert_eq!(t.frame_number, 4),
        _ => panic!("tile expected"),
    }
}

#[test]
fn end_to_end_create_select_move() {
    let mut manager = engine(8, 8);
    // A create at the head tick itself is queued but never applied: tick 0 is done.
    assert_eq!(manager.addNetworkRequest(create(0, 1, 0, 0)), RequestStatus::Synchronized);
    assert_eq!(manager.addLocalRequest(create(1, 7, 1, 1)), RequestStatus::Synchronized);
    advance_to(&mut manager, 1);
    assert_eq!(unit_position(&manager.current_game_state, 1), None);
    assert_eq!(unit_position(&manager.current_game_state, 7), Some((1, 1, 0)));
    manager.current_game_state.mark_new_selected_sprite(7);
    assert_eq!(manager.current_game_state.selected_entity, 7);
    assert_eq!(manager.addLocalRequest(move_to(2, 7, 5, 5)), RequestStatus::Synchronized);
    advance_to(&mut manager, 2);
    assert_eq!(unit_position(&manager.current_game_state, 7), Some((1, 1, 4)));
    advance_to(&mut manager, 20);
    assert_eq!(unit_position(&manager.current_game_state, 7), Some((2, 2, 3)));
    advance_to(&mut manager, 40);
    assert_eq!(unit_position(&manager.current_game_state, 7), Some((4, 4, 1)));
    advance_to(&mut manager, 41);
    assert_eq!(unit_position(&manager.current_game_state, 7), Some((5, 5, 0)));
}

#[test]
fn move_without_selection_is_dropped() {
    let mut manager = engine(4, 4);
    manager.addRequest(create(1, 3, 0, 0));
    manager.addRequest(move_to(2, 3, 3, 3));
    advance_to(&mut manager, 15);
    assert_eq!(unit_position(&manager.current_game_state, 3), Some((0, 0, 0)));
}

#[test]
fn retention_keeps_tick_zero_and_the_recent_window() {
    let mut manager = engine(2, 2);
    advance_to(&mut manager, 47);
    assert_eq!(history_ticks(&manager), (0..=47).collect::<Vec<u32>>());
    advance_to(&mut manager, 60);
    let mut expected = vec![0];
    expected.extend(14..=60);
    assert_eq!(history_ticks(&manager), expected);
}

#[test]
fn desync_boundary() {
    let mut manager = engine(2, 2);
    advance_to(&mut manager, 50);
    assert_eq!(manager.addNetworkRequest(create(5, 9, 0, 0)), RequestStatus::Desynchronized);
    assert_eq!(manager.requests.GetNumberOfRequests(), 1);
    assert_eq!(unit_position(&manager.current_game_state, 9), None);
    assert_eq!(manager.addNetworkRequest(create(6, 9, 0, 0)), RequestStatus::Synchronized);
    assert_eq!(manager.last_tick, 50);
    // The rewind replayed ticks 6 to 50 with the new request in the queue.
    assert!(unit_position(&manager.current_game_state, 9).is_some());
    assert!(unit_position(&manager.game_state_history[&50], 9).is_some());
}

#[test]
fn future_request_purges_old_requests() {
    let mut manager = engine(2, 2);
    manager.addRequest(create(3, 4, 0, 0));
    advance_to(&mut manager, 60);
    assert_eq!(manager.addRequest(create(70, 5, 1, 1)), RequestStatus::Synchronized);
    assert_eq!(manager.requests.GetNumberOfRequests(), 1);
}

#[test]
fn rewind_restores_the_snapshot() {
    let mut a = engine(4, 4);
    a.addRequest(create(1, 3, 0, 0));
    advance_to(&mut a, 5);
    let mut b = engine(4, 4);
    b.addRequest(create(1, 3, 0, 0));
    advance_to(&mut b, 5);
    // Only the live world of `b` differs: a selection.
    b.current_game_state.mark_new_selected_sprite(3);
    a.process_tick(3);
    b.process_tick(3);
    assert_eq!(a.current_game_state.selected_entity, 0);
    assert_eq!(b.current_game_state.selected_entity, 0);
    assert_eq!(unit_position(&a.current_game_state, 3), unit_position(&b.current_game_state, 3));
    assert_eq!(history_ticks(&a), history_ticks(&b));
}

#[test]
fn drive_counts_whole_ticks() {
    let mut manager = engine(2, 2);
    assert_eq!(manager.drive(175), 25);
    assert_eq!(manager.last_tick, 3);
    assert_eq!(manager.drive(49), 49);
    assert_eq!(manager.last_tick, 3);
}

#[test]
fn click_selects_then_moves() {
    let mut manager = engine(8, 8);
    manager.addRequest(create(1, 7, 2, 2));
    advance_to(&mut manager, 1);
    // Tile (2, 2) has its box from world (8, 56) to (66, 114), open at both ends.
    let on_unit = WorldPoint { x: 30, y: 80, x_fraction: false, y_fraction: false };
    manager.mouse_clicked(on_unit, TilePosition { x: 0, y: 0 });
    assert_eq!(manager.current_game_state.selected_entity, 7);
    let elsewhere = WorldPoint { x: -300, y: 0, x_fraction: false, y_fraction: false };
    manager.mouse_clicked(elsewhere, TilePosition { x: 6, y: 2 });
    assert_eq!(manager.requests.GetNumberOfRequests(), 2);
    assert_eq!(manager.requests.GetRequestsOfParticularTick(11).len(), 1);
    advance_to(&mut manager, 11);
    assert_eq!(unit_position(&manager.current_game_state, 7), Some((2, 2, 4)));
}

#[test]
fn rewind_works_the_restored_tick_again() {
    let mut manager = engine(2, 2);
    manager.addRequest(create(1, 3, 0, 0));
    advance_to(&mut manager, 5);
    let counter = |m: &GameManager| match m.current_game_state.sprite_map.get(&3) {
        Some(SpriteID::Engineer(e)) => e.movement_tick_counter(),
        _ => panic!("unit expected"),
    };
    assert_eq!(counter(&manager), 5);
    // The snapshot of tick 3 already holds tick 3's work; ticks 3 to 5 run on it.
    manager.process_tick(3);
    assert_eq!(manager.last_tick, 5);
    assert_eq!(counter(&manager), 6);
}
