//! The parsed tile map: layers of tile ids and tilesets whose tiles carry
//! properties. Parsing itself happens outside the library.

use vstd::prelude::*;

verus! {

/// A parsed tile map, reduced to what the simulation reads.
pub struct TiledMap {
    pub height: i64,
    pub width: i64,
    pub tileheight: i64,
    pub tilewidth: i64,
    pub layers: Vec<LayerData>,
    pub tilesets: Vec<TileSet>,
}

/// One layer of a tile map: a row-major grid of tile ids.
pub struct LayerData {
    pub data: Vec<i64>,
    pub height: i64,
    pub id: i64,
    pub name: String,
    pub opacity: i64,
    pub tiled_type: String,
    pub visible: bool,
    pub width: i64,
    pub x: i64,
    pub y: i64,
}

/// A tileset and the per-tile properties it declares.
pub struct TileSet {
    pub columns: i64,
    pub firstgid: i64,
    pub image: String,
    pub imageheight: i64,
    pub imagewidth: i64,
    pub margin: i64,
    pub name: String,
    pub spacing: i64,
    pub tilecount: i64,
    pub tileheight: i64,
    pub tiles: Vec<Tile>,
    pub tilewidth: i64,
}

/// A tile of a tileset with its properties.
pub struct Tile {
    pub id: i64,
    pub properties: Vec<Property>,
}

/// A named boolean property of a tile.
pub struct Property {
    pub name: String,
    pub tiled_type: String,
    pub value: bool,
}

impl TiledMap {
    /// `(x, y)` lies inside the first layer's grid, whose sides fit the
    /// coordinate type, and names a stored cell.
    pub open spec fn in_grid(&self, x: int, y: int) -> bool {
        &&& self.layers@.len() > 0
        &&& 0 <= x < self.layers@[0].width <= i32::MAX
        &&& 0 <= y < self.layers@[0].height <= i32::MAX
        &&& self.layers@[0].cell_index(x, y) < self.layers@[0].data@.len()
    }

    /// The tile id stored at `(x, y)` in the first layer.
    pub open spec fn tile_id_at(&self, x: int, y: int) -> u32 {
        self.layers@[0].data@[self.layers@[0].cell_index(x, y)] as u32
    }

    /// A tile may be walked on when it lies in the grid and its tile id names
    /// a tile of the first tileset whose first property (the collision flag)
    /// is false.
    pub open spec fn walkable_at(&self, x: int, y: int) -> bool {
        &&& self.in_grid(x, y)
        &&& self.tilesets@.len() > 0
        &&& 1 <= self.tile_id_at(x, y) <= self.tilesets@[0].tiles@.len()
        &&& self.tilesets@[0].tiles@[self.tile_id_at(x, y) - 1].properties@.len() > 0
        &&& !self.tilesets@[0].tiles@[self.tile_id_at(x, y) - 1].properties@[0].value
    }
}

impl LayerData {
    /// Row-major position of the cell `(x, y)` in `data`.
    pub open spec fn cell_index(&self, x: int, y: int) -> int {
        y * self.width + x
    }

    /// The tile id stored at `(x, y)`, read as an unsigned 32-bit value.
    pub fn get_tile_at(&self, x: u32, y: u32) -> (r: u32)
        requires
            0 <= self.width <= u32::MAX,
            0 <= self.cell_index(x as int, y as int) < self.data@.len(),
        ensures
            r == self.data@[self.cell_index(x as int, y as int)] as u32,
    {
        let w = self.width as u64;
        let len = self.data.len();
        assert(0 <= (y as int) * (w as int) <= (y as int) * (w as int) + x < len) by (nonlinear_arith)
            requires
                0 <= (y as int) * (w as int) + x < len,
                0 <= y,
                0 <= w,
                0 <= x,
        ;
        let i = (y as u64) * w + (x as u64);
        let r = (#[verifier::truncate] (self.data[i as usize] as u32));
        r
    }
}

} // verus!
