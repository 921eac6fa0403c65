use engineers::pathfinding::{get_pathfinder, heuristic, Pathfinder, TilePosition};
use engineers::tiledmap::{LayerData, Property, Tile, TileSet, TiledMap};
use std::collections::{HashMap, VecDeque};
use std::time::Instant;

const OPEN: i64 = 1;
const WALL: i64 = 2;

fn property(value: bool) -> Property {
    Property { name: "collision".to_string(), tiled_type: "bool".to_string(), value }
}

fn map_with(width: i64, height: i64, data: Vec<i64>) -> TiledMap {
    TiledMap {
        height,
        width,
        tileheight: 32,
        tilewidth: 64,
        layers: vec![LayerData {
            data,
            height,
            id: 1,
            name: "ground".to_string(),
            opacity: 1,
            tiled_type: "tilelayer".to_string(),
            visible: true,
            width,
            x: 0,
            y: 0,
        }],
        tilesets: vec![TileSet {
            columns: 2,
            firstgid: 1,
            image: "tileset.png".to_string(),
            imageheight: 64,
            imagewidth: 128,
            margin: 0,
            name: "tiles".to_string(),
            spacing: 0,
            tilecount: 2,
            tileheight: 64,
            tiles: vec![
                Tile { id: 0, properties: vec![property(false)] },
                Tile { id: 1, properties: vec![property(true)] },
            ],
            tilewidth: 64,
        }],
    }
}

fn grid(width: i64, height: i64, walls: &[(i64, i64)]) -> Vec<i64> {
    let mut data = vec![OPEN; (width * height) as usize];
    for &(x, y) in walls {
        data[(y * width + x) as usize] = WALL;
    }
    data
}

/// A 50 by 50 map whose first column and the tile (20, 1) are walls.
fn level_pathfinder() -> Pathfinder {
    let mut walls: Vec<(i64, i64)> = (0..50).map(|y| (0, y)).collect();
    walls.push((20, 1));
    Pathfinder::new(map_with(50, 50, grid(50, 50, &walls)))
}

fn bfs_length(pathfinder: &Pathfinder, start: TilePosition, goal: TilePosition) -> Option<usize> {
    let mut dist: HashMap<(i32, i32), usize> = HashMap::new();
    let mut queue = VecDeque::new();
    dist.insert((start.x, start.y), 0);
    queue.push_back(start);
    while let Some(p) = queue.pop_front() {
        let d = dist[&(p.x, p.y)];
        for dx in -1..=1 {
            for dy in -1..=1 {
                let q = TilePosition { x: p.x + dx, y: p.y + dy };
                if (dx, dy) != (0, 0)
                    && pathfinder.tile_is_walkable(q.x, q.y)
                    && !dist.contains_key(&(q.x, q.y))
                {
                    dist.insert((q.x, q.y), d + 1);
                    queue.push_back(q);
                }
            }
        }
    }
    dist.get(&(goal.x, goal.y)).copied()
}

fn assert_route(pathfinder: &Pathfinder, start: TilePosition, path: &[TilePosition]) {
    let mut prev = start;
    for pos in path {
        assert!(pathfinder.tile_is_walkable(pos.x, pos.y));
        assert!((pos.x - prev.x).abs() <= 1 && (pos.y - prev.y).abs() <= 1);
        assert_ne!(*pos, prev);
        prev = *pos;
    }
}

#[test]
fn test_collision_tile() {
    let pathfinder = level_pathfinder();
    assert_eq!(pathfinder.tile_is_walkable(0, 0), false);
}

#[test]
fn test_non_collision_tile() {
    let pathfinder = level_pathfinder();
    assert_eq!(pathfinder.tile_is_walkable(1, 2), true);
}

#[test]
fn test_collision_tile_2() {
    let pathfinder = level_pathfinder();
    assert_eq!(pathfinder.tile_is_walkable(20, 1), false);
}

#[test]
fn pathfinding_large_test() {
    let pathfinder = level_pathfinder();
    let path = pathfinder.find_path(TilePosition { x: 1, y: 1 }, TilePosition { x: 45, y: 45 });
    println!("Pos.length: {}", path.len());
    for pos in path {
        println!("Pos.x:{}, Pos.y:{}", pos.x, pos.y);
        assert_eq!(pathfinder.tile_is_walkable(pos.x, pos.y), true);
    }
    assert_eq!(false, false);
}

#[test]
fn pathfinding_same_start_end_tile_test() {
    let pathfinder = level_pathfinder();
    let path = pathfinder.find_path(TilePosition { x: 1, y: 1 }, TilePosition { x: 1, y: 1 });
    assert_eq!(path.len(), 0);
}

#[test]
fn pathfinding_invalid_to_invalid_test() {
    let pathfinder = level_pathfinder();
    let path = pathfinder.find_path(TilePosition { x: 0, y: 1 }, TilePosition { x: 0, y: 9 });
    assert_eq!(path.len(), 0);
}

#[test]
fn pathfinding_valid_to_invalid_test() {
    let pathfinder = level_pathfinder();
    let path = pathfinder.find_path(TilePosition { x: 1, y: 1 }, TilePosition { x: 0, y: 7 });
    assert_eq!(path.len(), 0);
}

#[test]
fn pathfinding_invalid_to_valid_test() {
    let pathfinder = level_pathfinder();
    let path = pathfinder.find_path(TilePosition { x: 0, y: 0 }, TilePosition { x: 5, y: 5 });
    assert_eq!(path.len(), 0);
}

#[test]
fn pathfinding_benchmark() {
    let pathfinder = level_pathfinder();
    let start = Instant::now();
    pathfinder.find_path(TilePosition { x: 1, y: 1 }, TilePosition { x: 45, y: 45 });
    let duration = start.elapsed();
    println!("Duration:{}ms", duration.as_millis());
    assert!(duration.as_millis() < 10);
}

#[test]
fn large_path_is_a_route_to_the_goal() {
    let pathfinder = level_pathfinder();
    let start = TilePosition { x: 1, y: 1 };
    let goal = TilePosition { x: 45, y: 45 };
    let path = pathfinder.find_path(start, goal);
    assert_eq!(path.len(), 44);
    assert_eq!(*path.last().unwrap(), goal);
    assert_route(&pathfinder, start, &path);
}

#[test]
fn open_map_path_is_the_diagonal() {
    let pathfinder = Pathfinder::new(map_with(8, 8, grid(8, 8, &[])));
    let path = pathfinder.find_path(TilePosition { x: 1, y: 1 }, TilePosition { x: 5, y: 5 });
    assert_eq!(
        path,
        vec![
            TilePosition { x: 2, y: 2 },
            TilePosition { x: 3, y: 3 },
            TilePosition { x: 4, y: 4 },
            TilePosition { x: 5, y: 5 },
        ]
    );
}

#[test]
fn path_around_a_wall_matches_breadth_first_length() {
    // A wall across x = 3 with a gap at y = 6.
    let walls: Vec<(i64, i64)> = (0..6).map(|y| (3, y)).collect();
    let pathfinder = Pathfinder::new(map_with(8, 8, grid(8, 8, &walls)));
    let start = TilePosition { x: 1, y: 1 };
    let goal = TilePosition { x: 5, y: 1 };
    let path = pathfinder.find_path(start, goal);
    assert_route(&pathfinder, start, &path);
    assert_eq!(*path.last().unwrap(), goal);
    assert_eq!(Some(path.len()), bfs_length(&pathfinder, start, goal));
}

#[test]
fn unreachable_goal_gives_empty_path() {
    let walls: Vec<(i64, i64)> = (0..8).map(|y| (3, y)).collect();
    let pathfinder = Pathfinder::new(map_with(8, 8, grid(8, 8, &walls)));
    let path = pathfinder.find_path(TilePosition { x: 1, y: 1 }, TilePosition { x: 6, y: 6 });
    assert!(path.is_empty());
}

#[test]
fn outside_the_grid_is_not_walkable() {
    let pathfinder = Pathfinder::new(map_with(4, 3, grid(4, 3, &[])));
    assert!(pathfinder.tile_is_walkable(3, 2));
    assert!(!pathfinder.tile_is_walkable(4, 0));
    assert!(!pathfinder.tile_is_walkable(0, 3));
    assert!(!pathfinder.tile_is_walkable(-1, 0));
    assert!(!pathfinder.tile_is_walkable(0, -1));
}

#[test]
fn unknown_tile_ids_are_not_walkable() {
    let pathfinder = Pathfinder::new(map_with(3, 1, vec![0, 1, 3]));
    assert!(!pathfinder.tile_is_walkable(0, 0));
    assert!(pathfinder.tile_is_walkable(1, 0));
    assert!(!pathfinder.tile_is_walkable(2, 0));
}

#[test]
fn neighbours_and_heuristic() {
    let pathfinder = Pathfinder::new(map_with(2, 2, grid(2, 2, &[])));
    let n = pathfinder.get_neighbours(&TilePosition { x: 5, y: 7 });
    assert_eq!(n.len(), 8);
    assert_eq!(n[0], TilePosition { x: 4, y: 6 });
    assert_eq!(n[4], TilePosition { x: 5, y: 8 });
    assert_eq!(n[7], TilePosition { x: 6, y: 8 });
    assert_eq!(heuristic(&TilePosition { x: 1, y: 9 }, &TilePosition { x: 4, y: 2 }), 10);
    assert_eq!(
        heuristic(&TilePosition { x: i32::MIN, y: 0 }, &TilePosition { x: i32::MAX, y: 0 }),
        u32::MAX as i64
    );
}

#[test]
fn tile_at_reads_row_major() {
    let map = map_with(3, 2, vec![1, 2, 3, 4, 5, 6]);
    assert_eq!(map.layers[0].get_tile_at(2, 1), 6);
    assert_eq!(map.layers[0].get_tile_at(0, 1), 4);
    let negative = map_with(1, 1, vec![-1]);
    assert_eq!(negative.layers[0].get_tile_at(0, 0), u32::MAX);
}

#[test]
fn get_pathfinder_searches_the_given_map() {
    let pathfinder = get_pathfinder(map_with(3, 1, vec![OPEN, WALL, OPEN]));
    assert!(pathfinder.tile_is_walkable(0, 0));
    assert!(!pathfinder.tile_is_walkable(1, 0));
    assert!(pathfinder.find_path(TilePosition { x: 0, y: 0 }, TilePosition { x: 2, y: 0 }).is_empty());
}
