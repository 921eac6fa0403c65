//! The simulated entities: movable units and static map tiles.

use vstd::prelude::*;
use crate::pathfinding::TilePosition;

verus! {

/// A point in world coordinates: the integer parts `x` and `y`, and whether
/// each coordinate has a fractional part beyond them (strictly between 0
/// and 1).
#[derive(Clone, Copy, Debug, PartialEq, Eq, Structural)]
pub struct WorldPoint {
    pub x: i64,
    pub y: i64,
    pub x_fraction: bool,
    pub y_fraction: bool,
}

/// The coordinate with integer part `v` (and a fraction when `frac`) lies
/// above the integer `a`.
pub open spec fn coord_above(v: i64, frac: bool, a: int) -> bool {
    v > a || (v == a && frac)
}

/// World x of the top left corner of the screen box of tile `(x, y)`.
pub open spec fn world_x(x: int, y: int) -> int {
    (x - y) * 32 + 8
}

/// World y of the top left corner of the screen box of tile `(x, y)`.
pub open spec fn world_y(x: int, y: int) -> int {
    (x + y) * 16 - 8
}

/// Side of the square box in which a click selects a unit.
pub const HIT_BOX_SIDE: i64 = 58;

/// Ticks a unit spends on each tile of its path.
pub const TICKS_PER_TILE: i32 = 10;

/// The world coordinates of the top left corner of the screen box of a tile.
pub fn grid_to_world_coords(pos: &TilePosition) -> (r: (i64, i64))
    ensures
        r.0 == world_x(pos.x as int, pos.y as int),
        r.1 == world_y(pos.x as int, pos.y as int),
{
    let x = pos.x as i64;
    let y = pos.y as i64;
    ((x - y) * 32 + 8, (x + y) * 16 - 8)
}

/// The state of a movable unit, as the simulation sees it.
pub struct EngineerView {
    pub x: i32,
    pub y: i32,
    pub path: Seq<TilePosition>,
    pub previous: TilePosition,
    pub uuid: u32,
    pub selected: bool,
    pub direction: usize,
    pub counter: i32,
    pub ticks: i32,
}

/// A fresh idle unit at `(x, y)`.
pub open spec fn new_unit(x: i32, y: i32, uuid: u32) -> EngineerView {
    EngineerView {
        x,
        y,
        path: seq![],
        previous: TilePosition { x, y },
        uuid,
        selected: false,
        direction: 0,
        counter: 0,
        ticks: TICKS_PER_TILE,
    }
}

/// The animation row for walking from `current` to `next`: 0 to 7 for the
/// eight directions, 3 where `next` is no neighbour.
pub open spec fn animation_direction(current: TilePosition, next: TilePosition) -> usize {
    let dx = current.x - next.x;
    let dy = current.y - next.y;
    if dx == 1 && dy == 1 {
        0
    } else if dx == 1 && dy == 0 {
        1
    } else if dx == 1 && dy == -1 {
        2
    } else if dx == 0 && dy == -1 {
        3
    } else if dx == -1 && dy == -1 {
        4
    } else if dx == -1 && dy == 0 {
        5
    } else if dx == -1 && dy == 1 {
        6
    } else if dx == 0 && dy == 1 {
        7
    } else {
        3
    }
}

/// One tick of a unit: face the next waypoint (or the previous tile when
/// idle) and count; on the last tick of a tile move to the next waypoint,
/// if any, and start counting again.
pub open spec fn unit_tick(v: EngineerView) -> EngineerView {
    let here = TilePosition { x: v.x, y: v.y };
    let facing = if v.path.len() > 0 {
        v.path[0]
    } else {
        v.previous
    };
    let turned = EngineerView { direction: animation_direction(here, facing), ..v };
    if v.counter + 1 == v.ticks {
        if v.path.len() > 0 {
            EngineerView {
                counter: 0,
                previous: here,
                x: v.path[0].x,
                y: v.path[0].y,
                path: v.path.drop_first(),
                ..turned
            }
        } else {
            EngineerView { counter: 0, ..turned }
        }
    } else {
        EngineerView { counter: (v.counter + 1) as i32, ..turned }
    }
}

/// A unit given a new path: if it was walking, its previous tile becomes
/// the tile it stands on; its tick count starts again.
pub open spec fn with_path(v: EngineerView, path: Seq<TilePosition>) -> EngineerView {
    let previous = if v.path.len() > 0 {
        TilePosition { x: v.x, y: v.y }
    } else {
        v.previous
    };
    EngineerView { previous, counter: 0, path, ..v }
}

pub open spec fn unit_wf(v: EngineerView) -> bool {
    0 <= v.counter < v.ticks
}

/// Render depth of a unit: twice its coordinate sum (none below 0) plus one.
pub open spec fn unit_z(v: EngineerView) -> int {
    if v.x + v.y <= 0 {
        1
    } else {
        1 + 2 * (v.x + v.y)
    }
}

/// The point lies strictly inside the unit's screen box.
pub open spec fn unit_hit(v: EngineerView, p: WorldPoint) -> bool {
    let wx = world_x(v.x as int, v.y as int);
    let wy = world_y(v.x as int, v.y as int);
    &&& coord_above(p.x, p.x_fraction, wx)
    &&& p.x < wx + HIT_BOX_SIDE
    &&& coord_above(p.y, p.y_fraction, wy)
    &&& p.y < wy + HIT_BOX_SIDE
}

/// A movable unit.
#[derive(Clone)]
pub struct Engineer {
    pub x: i32,
    pub y: i32,
    pub current_path: Vec<TilePosition>,
    pub previous_position: TilePosition,
    pub uuid: u32,
    pub selected: bool,
    pub animation_direction: usize,
    movement_tick_counter: i32,
    ticks_to_move_one_square: i32,
}

impl View for Engineer {
    type V = EngineerView;

    closed spec fn view(&self) -> EngineerView {
        EngineerView {
            x: self.x,
            y: self.y,
            path: self.current_path@,
            previous: self.previous_position,
            uuid: self.uuid,
            selected: self.selected,
            direction: self.animation_direction,
            counter: self.movement_tick_counter,
            ticks: self.ticks_to_move_one_square,
        }
    }
}

impl Engineer {
    pub open spec fn wf(&self) -> bool {
        unit_wf(self@)
    }

    pub fn new(x: i32, y: i32, uuid: u32) -> (r: Engineer)
        ensures
            r@ == new_unit(x, y, uuid),
            r.wf(),
    {
        Engineer {
            x,
            y,
            current_path: Vec::new(),
            previous_position: TilePosition { x, y },
            uuid,
            selected: false,
            animation_direction: 0,
            movement_tick_counter: 0,
            ticks_to_move_one_square: TICKS_PER_TILE,
        }
    }

    pub fn get_animation_direction(current_position: &TilePosition, next_position: &TilePosition) -> (r: usize)
        ensures
            r == animation_direction(*current_position, *next_position),
    {
        let x_differential = current_position.x as i64 - next_position.x as i64;
        let y_differential = current_position.y as i64 - next_position.y as i64;
        if x_differential == 1 && y_differential == 1 {
            0
        } else if x_differential == 1 && y_differential == 0 {
            1
        } else if x_differential == 1 && y_differential == -1 {
            2
        } else if x_differential == 0 && y_differential == -1 {
            3
        } else if x_differential == -1 && y_differential == -1 {
            4
        } else if x_differential == -1 && y_differential == 0 {
            5
        } else if x_differential == -1 && y_differential == 1 {
            6
        } else if x_differential == 0 && y_differential == 1 {
            7
        } else {
            3
        }
    }

    /// Whether `coords` lies strictly inside this unit's screen box.
    pub fn is_within_bounds(&self, coords: WorldPoint) -> (r: bool)
        ensures
            r == unit_hit(self@, coords),
    {
        let (wx, wy) = grid_to_world_coords(&TilePosition { x: self.x, y: self.y });
        let above_x = coords.x > wx || (coords.x == wx && coords.x_fraction);
        let above_y = coords.y > wy || (coords.y == wy && coords.y_fraction);
        above_x && coords.x < wx + HIT_BOX_SIDE && above_y && coords.y < wy + HIT_BOX_SIDE
    }

    /// Advances this unit by one simulation tick.
    pub fn tick(&mut self, time: u32)
        requires
            old(self).wf(),
        ensures
            final(self)@ == unit_tick(old(self)@),
            final(self).wf(),
    {
        self.handle_tick();
    }

    /// Replaces the unit's path.
    pub fn update_path(&mut self, path: Vec<TilePosition>)
        requires
            old(self).wf(),
        ensures
            final(self)@ == with_path(old(self)@, path@),
            final(self).wf(),
    {
        if self.current_path.len() > 0 {
            self.previous_position = self.get_tile_pos();
        }
        self.movement_tick_counter = 0;
        self.current_path = path;
    }

    fn handle_tick(&mut self)
        requires
            old(self).wf(),
        ensures
            final(self)@ == unit_tick(old(self)@),
            final(self).wf(),
    {
        let here = TilePosition { x: self.x, y: self.y };
        let facing = if self.current_path.len() > 0 {
            self.current_path[0]
        } else {
            self.previous_position
        };
        self.animation_direction = Engineer::get_animation_direction(&here, &facing);
        self.movement_tick_counter = self.movement_tick_counter + 1;
        if self.movement_tick_counter == self.ticks_to_move_one_square {
            self.movement_tick_counter = 0;
            if self.current_path.len() > 0 {
                self.previous_position = here;
                let next = self.current_path.remove(0);
                self.x = next.x;
                self.y = next.y;
            }
        }
    }

    /// Render depth: units sit one above the tiles of a lower coordinate sum.
    pub fn get_zindex(&self) -> (r: u64)
        ensures
            r == unit_z(self@),
    {
        let sum = self.x as i64 + self.y as i64;
        if sum <= 0 {
            1
        } else {
            1 + 2 * (sum as u64)
        }
    }

    pub fn get_tile_pos(&self) -> (r: TilePosition)
        ensures
            r == (TilePosition { x: self@.x, y: self@.y }),
    {
        TilePosition { x: self.x, y: self.y }
    }

    pub fn get_uuid(&self) -> (r: u32)
        ensures
            r == self@.uuid,
    {
        self.uuid
    }

    /// Marks the unit as selected or not.
    pub fn set_selected(&mut self, selected: bool)
        ensures
            final(self)@ == (EngineerView { selected, ..old(self)@ }),
    {
        self.selected = selected;
    }

    /// Ticks spent so far on the current tile.
    pub fn movement_tick_counter(&self) -> (r: i32)
        ensures
            r == self@.counter,
    {
        self.movement_tick_counter
    }

    /// Ticks a unit spends on each tile.
    pub fn ticks_to_move_one_square(&self) -> (r: i32)
        ensures
            r == self@.ticks,
    {
        self.ticks_to_move_one_square
    }
}

/// A static tile of the map.
#[derive(Clone, Copy, Debug, PartialEq, Eq, Structural)]
pub struct TileSprite {
    pub frame_number: u32,
    pub x: u32,
    pub y: u32,
    pub layer: u32,
    pub uuid: u32,
}

/// Render depth of a tile: the decorative layer (layer 1, or a frame past
/// the base terrain frames) goes below everything, base tiles sit at twice
/// their coordinate sum plus two.
pub open spec fn tile_z(t: TileSprite) -> int {
    if t.layer == 1 || t.frame_number > 15 {
        0
    } else {
        2 + 2 * (t.x + t.y)
    }
}

impl TileSprite {
    pub fn get_zindex(&self) -> (r: u64)
        ensures
            r == tile_z(*self),
    {
        if self.layer == 1 || self.frame_number > 15 {
            0
        } else {
            2 + 2 * (self.x as u64 + self.y as u64)
        }
    }
}

/// The state of an entity, as the simulation sees it.
pub enum SpriteView {
    Unit(EngineerView),
    Tile(TileSprite),
}

/// Render depth of an entity.
pub open spec fn sprite_z(v: SpriteView) -> int {
    match v {
        SpriteView::Unit(u) => unit_z(u),
        SpriteView::Tile(t) => tile_z(t),
    }
}

/// Among entities of equal depth, tiles are drawn before units.
pub open spec fn sprite_rank(v: SpriteView) -> int {
    match v {
        SpriteView::Unit(_) => 1,
        SpriteView::Tile(_) => 0,
    }
}

/// `a` is drawn no later than `b`: by depth, then tiles before units.
pub open spec fn render_le(a: SpriteView, b: SpriteView) -> bool {
    sprite_z(a) < sprite_z(b) || (sprite_z(a) == sprite_z(b) && sprite_rank(a) <= sprite_rank(b))
}

pub open spec fn sprite_wf(v: SpriteView) -> bool {
    match v {
        SpriteView::Unit(u) => unit_wf(u),
        SpriteView::Tile(_) => true,
    }
}

/// An entity of the world: a movable unit or a static tile.
#[derive(Clone)]
pub enum SpriteID {
    Engineer(Engineer),
    Tile(TileSprite),
}

impl View for SpriteID {
    type V = SpriteView;

    open spec fn view(&self) -> SpriteView {
        match self {
            SpriteID::Engineer(e) => SpriteView::Unit(e@),
            SpriteID::Tile(t) => SpriteView::Tile(*t),
        }
    }
}

impl SpriteID {
    pub fn get_zindex(&self) -> (r: u64)
        ensures
            r == sprite_z(self@),
    {
        match self {
            SpriteID::Engineer(e) => e.get_zindex(),
            SpriteID::Tile(t) => t.get_zindex(),
        }
    }

    /// Draw order among entities of equal depth: tiles first.
    pub fn render_rank(&self) -> (r: u8)
        ensures
            r == sprite_rank(self@),
    {
        match self {
            SpriteID::Engineer(_) => 1,
            SpriteID::Tile(_) => 0,
        }
    }
}

} // verus!
