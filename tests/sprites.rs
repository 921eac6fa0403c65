use engineers::gamestate::GameState;
use engineers::pathfinding::TilePosition;
use engineers::sprites::{grid_to_world_coords, Engineer, SpriteID, TileSprite, WorldPoint};
use std::collections::HashMap;

fn tile(uuid: u32, x: u32, y: u32, layer: u32, frame_number: u32) -> TileSprite {
    TileSprite { frame_number, x, y, layer, uuid }
}

#[test]
fn animation_directions() {
    let c = TilePosition { x: 5, y: 5 };
    let at = |x: i32, y: i32| Engineer::get_animation_direction(&c, &TilePosition { x, y });
    assert_eq!(at(4, 4), 0);
    assert_eq!(at(4, 5), 1);
    assert_eq!(at(4, 6), 2);
    assert_eq!(at(5, 6), 3);
    assert_eq!(at(6, 6), 4);
    assert_eq!(at(6, 5), 5);
    assert_eq!(at(6, 4), 6);
    assert_eq!(at(5, 4), 7);
    assert_eq!(at(5, 5), 3);
    assert_eq!(at(9, 9), 3);
}

#[test]
fn world_coordinates_of_tiles() {
    assert_eq!(grid_to_world_coords(&TilePosition { x: 0, y: 0 }), (8, -8));
    assert_eq!(grid_to_world_coords(&TilePosition { x: 3, y: 5 }), (-56, 120));
}

#[test]
fn hit_box_is_open() {
    let e = Engineer::new(0, 0, 1);
    let p = |x: i64, xf: bool, y: i64, yf: bool| WorldPoint { x, y, x_fraction: xf, y_fraction: yf };
    assert!(!e.is_within_bounds(p(8, false, 0, false)));
    assert!(e.is_within_bounds(p(8, true, 0, false)));
    assert!(e.is_within_bounds(p(65, true, 49, true)));
    assert!(!e.is_within_bounds(p(66, false, 0, false)));
    assert!(!e.is_within_bounds(p(20, false, -8, false)));
    assert!(e.is_within_bounds(p(20, false, -8, true)));
}

#[test]
fn unit_walks_one_tile_per_ten_ticks() {
    let mut e = Engineer::new(1, 1, 4);
    e.update_path(vec![TilePosition { x: 2, y: 1 }, TilePosition { x: 3, y: 1 }]);
    for _ in 0..9 {
        e.tick(1);
    }
    assert_eq!((e.x, e.y), (1, 1));
    assert_eq!(e.movement_tick_counter(), 9);
    assert_eq!(e.animation_direction, 5);
    e.tick(1);
    assert_eq!((e.x, e.y), (2, 1));
    assert_eq!(e.previous_position, TilePosition { x: 1, y: 1 });
    assert_eq!(e.current_path.len(), 1);
    assert_eq!(e.movement_tick_counter(), 0);
    assert_eq!(e.ticks_to_move_one_square(), 10);
    // A new path while walking: the previous tile becomes the current one.
    e.update_path(vec![TilePosition { x: 2, y: 2 }]);
    assert_eq!(e.previous_position, TilePosition { x: 2, y: 1 });
    assert_eq!(e.movement_tick_counter(), 0);
}

#[test]
fn idle_unit_keeps_counting() {
    let mut e = Engineer::new(0, 0, 2);
    for _ in 0..10 {
        e.tick(1);
    }
    assert_eq!((e.x, e.y), (0, 0));
    assert_eq!(e.movement_tick_counter(), 0);
    e.tick(1);
    assert_eq!(e.movement_tick_counter(), 1);
}

#[test]
fn z_indices() {
    assert_eq!(Engineer::new(2, 3, 1).get_zindex(), 11);
    assert_eq!(Engineer::new(-4, 1, 1).get_zindex(), 1);
    assert_eq!(tile(1, 2, 3, 0, 4).get_zindex(), 12);
    assert_eq!(tile(1, 2, 3, 1, 4).get_zindex(), 0);
    assert_eq!(tile(1, 2, 3, 0, 16).get_zindex(), 0);
}

fn state_of(entities: Vec<(u32, SpriteID)>) -> GameState {
    let mut sprite_map = HashMap::new();
    let mut order = Vec::new();
    for (uuid, sprite) in entities {
        sprite_map.insert(uuid, sprite);
        order.push(uuid);
    }
    GameState { sprite_map, sprite_uuid_list: order, selected_entity: 0 }
}

#[test]
fn render_order_sorts_by_depth_tiles_first() {
    let mut state = state_of(vec![
        (1, SpriteID::Engineer(Engineer::new(0, 0, 1))),
        (2, SpriteID::Tile(tile(2, 0, 0, 1, 3))),
        (3, SpriteID::Tile(tile(3, 1, 0, 0, 3))),
        (4, SpriteID::Engineer(Engineer::new(1, 0, 4))),
        (5, SpriteID::Tile(tile(5, 0, 0, 0, 3))),
    ]);
    state.sort_by_z_index();
    // Depths: unit 1 -> 1, tile 2 -> 0, tile 3 -> 4, unit 4 -> 3, tile 5 -> 2.
    assert_eq!(state.sprite_uuid_list, vec![2, 1, 5, 4, 3]);
}

#[test]
fn equal_depth_tiles_keep_their_order() {
    let mut state = state_of(vec![
        (9, SpriteID::Tile(tile(9, 5, 0, 1, 3))),
        (1, SpriteID::Engineer(Engineer::new(-1, 0, 1))),
        (8, SpriteID::Tile(tile(8, 0, 0, 0, 20))),
    ]);
    state.sort_by_z_index();
    assert_eq!(state.sprite_uuid_list, vec![9, 8, 1]);
}

#[test]
fn hit_test_takes_the_last_unit() {
    let mut state = state_of(vec![
        (1, SpriteID::Engineer(Engineer::new(0, 0, 1))),
        (2, SpriteID::Tile(tile(2, 0, 0, 0, 1))),
        (3, SpriteID::Engineer(Engineer::new(0, 0, 3))),
    ]);
    let inside = WorldPoint { x: 20, y: 10, x_fraction: false, y_fraction: false };
    assert_eq!(state.is_sprite_within_bounds(inside), Some(3));
    let outside = WorldPoint { x: 200, y: 10, x_fraction: false, y_fraction: false };
    assert_eq!(state.is_sprite_within_bounds(outside), None);
    state.mark_new_selected_sprite(3);
    state.mark_new_selected_sprite(1);
    assert_eq!(state.selected_entity, 1);
    match (state.sprite_map.get(&1), state.sprite_map.get(&3)) {
        (Some(SpriteID::Engineer(a)), Some(SpriteID::Engineer(b))) => {
            assert!(a.selected);
            assert!(!b.selected);
        }
        _ => panic!("units expected"),
    }
    // A tile cannot be selected.
    state.mark_new_selected_sprite(2);
    assert_eq!(state.selected_entity, 1);
}

#[test]
fn process_tick_advances_units_only() {
    let mut state = state_of(vec![
        (1, SpriteID::Engineer(Engineer::new(0, 0, 1))),
        (2, SpriteID::Tile(tile(2, 0, 0, 0, 1))),
    ]);
    state.process_tick(0);
    match state.sprite_map.get(&1) {
        Some(SpriteID::Engineer(e)) => assert_eq!(e.movement_tick_counter(), 1),
        _ => panic!("unit expected"),
    }
    let copy = state.snapshot();
    assert_eq!(copy.sprite_uuid_list, state.sprite_uuid_list);
}
