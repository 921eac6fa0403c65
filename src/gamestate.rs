//! The world state at one tick: the entities by uuid, their iteration order
//! and the selected unit.

use vstd::prelude::*;
use std::collections::HashMap;
use crate::sprites::{
    render_le, sprite_rank, sprite_wf, sprite_z, unit_hit, unit_tick, EngineerView, SpriteID,
    SpriteView, TileSprite, WorldPoint,
};
use crate::tiledmap::TiledMap;

verus! {

broadcast use vstd::std_specs::hash::group_hash_axioms;

/// The world as the simulation sees it.
pub struct WorldView {
    pub entities: Map<u32, SpriteView>,
    pub order: Seq<u32>,
    pub selected: u32,
}

/// The views of the entities of a map.
pub open spec fn entity_views(m: Map<u32, SpriteID>) -> Map<u32, SpriteView> {
    m.map_values(|s: SpriteID| s@)
}

/// The order lists exactly the stored uuids, a nonzero selection names a
/// unit, and every unit keeps its tick count in range.
pub open spec fn world_wf(w: WorldView) -> bool {
    &&& forall|i: int| 0 <= i < w.order.len() ==> w.entities.contains_key(#[trigger] w.order[i])
    &&& forall|k: u32| #[trigger] w.entities.contains_key(k) ==> w.order.contains(k)
    &&& w.selected != 0 ==> w.entities.contains_key(w.selected) && w.entities[w.selected] is Unit
    &&& forall|k: u32| #[trigger] w.entities.contains_key(k) ==> sprite_wf(w.entities[k])
}

/// The unit stored in an entity view.
pub open spec fn unit_of(v: SpriteView) -> EngineerView {
    match v {
        SpriteView::Unit(e) => e,
        SpriteView::Tile(_) => crate::sprites::new_unit(0, 0, 0),
    }
}

/// `u` names a unit of `m`.
pub open spec fn is_unit(m: Map<u32, SpriteView>, u: u32) -> bool {
    m.contains_key(u) && m[u] is Unit
}

/// Ticks the unit stored under `u`, if there is one.
pub open spec fn tick_entity(m: Map<u32, SpriteView>, u: u32) -> Map<u32, SpriteView> {
    if is_unit(m, u) {
        m.insert(u, SpriteView::Unit(unit_tick(unit_of(m[u]))))
    } else {
        m
    }
}

/// Ticks the units named by `order`, in that order.
pub open spec fn tick_all(m: Map<u32, SpriteView>, order: Seq<u32>) -> Map<u32, SpriteView>
    decreases order.len(),
{
    if order.len() == 0 {
        m
    } else {
        tick_entity(tick_all(m, order.drop_last()), order.last())
    }
}

/// The world one tick later.
pub open spec fn advance_world(w: WorldView) -> WorldView {
    WorldView { entities: tick_all(w.entities, w.order), ..w }
}

/// The uuid field of the last unit in `order` whose box holds `p`; 0 where
/// none does.
pub open spec fn hit_uuid(m: Map<u32, SpriteView>, p: WorldPoint, order: Seq<u32>) -> u32
    decreases order.len(),
{
    if order.len() == 0 {
        0
    } else {
        let u = order.last();
        if is_unit(m, u) && unit_hit(unit_of(m[u]), p) {
            unit_of(m[u]).uuid
        } else {
            hit_uuid(m, p, order.drop_last())
        }
    }
}

/// Sets the selected flag of the unit under `u`, if there is one.
pub open spec fn flag_unit(m: Map<u32, SpriteView>, u: u32, selected: bool) -> Map<
    u32,
    SpriteView,
> {
    if is_unit(m, u) {
        m.insert(u, SpriteView::Unit(EngineerView { selected, ..unit_of(m[u]) }))
    } else {
        m
    }
}

/// Selecting `uuid`: the previous selection loses its flag; a unit under
/// `uuid` gains it and becomes the selection.
pub open spec fn select(w: WorldView, uuid: u32) -> WorldView {
    let cleared = if w.selected != 0 {
        flag_unit(w.entities, w.selected, false)
    } else {
        w.entities
    };
    if is_unit(cleared, uuid) {
        WorldView { entities: flag_unit(cleared, uuid, true), selected: uuid, ..w }
    } else {
        WorldView { entities: cleared, ..w }
    }
}

/// Where `u` goes in the render order `r`: after every entry drawn no later.
pub open spec fn render_pos(m: Map<u32, SpriteView>, r: Seq<u32>, u: u32) -> int
    decreases r.len(),
{
    if r.len() == 0 {
        0
    } else if !render_le(m[r[0]], m[u]) {
        0
    } else {
        1 + render_pos(m, r.drop_first(), u)
    }
}

/// The stable sort of `s` by depth, tiles before units at equal depth.
pub open spec fn render_sort(m: Map<u32, SpriteView>, s: Seq<u32>) -> Seq<u32>
    decreases s.len(),
{
    if s.len() == 0 {
        seq![]
    } else {
        let r = render_sort(m, s.drop_last());
        r.insert(render_pos(m, r, s.last()), s.last())
    }
}

proof fn lemma_views_insert(m: Map<u32, SpriteID>, k: u32, v: SpriteID)
    ensures
        entity_views(m.insert(k, v)) == entity_views(m).insert(k, v@),
{
    assert(entity_views(m.insert(k, v)) =~= entity_views(m).insert(k, v@));
}

proof fn lemma_tick_all(m: Map<u32, SpriteView>, order: Seq<u32>)
    ensures
        tick_all(m, order).dom() == m.dom(),
        forall|k: u32| #[trigger]
            tick_all(m, order).contains_key(k) && m[k] is Unit ==> tick_all(m, order)[k] is Unit,
        (forall|k: u32| #[trigger] m.contains_key(k) ==> sprite_wf(m[k])) ==> (forall|k: u32|
            #[trigger] tick_all(m, order).contains_key(k) ==> sprite_wf(tick_all(m, order)[k])),
    decreases order.len(),
{
    if order.len() > 0 {
        lemma_tick_all(m, order.drop_last());
        let prev = tick_all(m, order.drop_last());
        assert(tick_all(m, order).dom() =~= prev.dom());
    }
}

/// Advancing a world keeps its entity kinds and their invariants.
pub proof fn lemma_tick_all_wf(m: Map<u32, SpriteView>, order: Seq<u32>)
    requires
        forall|k: u32| #[trigger] m.contains_key(k) ==> sprite_wf(m[k]),
    ensures
        tick_all(m, order).dom() == m.dom(),
        forall|k: u32| #[trigger]
            tick_all(m, order).contains_key(k) && m[k] is Unit ==> tick_all(m, order)[k] is Unit,
        forall|k: u32| #[trigger]
            tick_all(m, order).contains_key(k) ==> sprite_wf(tick_all(m, order)[k]),
{
    lemma_tick_all(m, order);
}

proof fn lemma_flag_unit(m: Map<u32, SpriteView>, u: u32, b: bool)
    ensures
        flag_unit(m, u, b).dom() == m.dom(),
        forall|k: u32| #[trigger]
            flag_unit(m, u, b).contains_key(k) ==> (m[k] is Unit <==> flag_unit(m, u, b)[k] is Unit),
        (forall|k: u32| #[trigger] m.contains_key(k) ==> sprite_wf(m[k])) ==> (forall|k: u32|
            #[trigger] flag_unit(m, u, b).contains_key(k) ==> sprite_wf(flag_unit(m, u, b)[k])),
{
    assert(flag_unit(m, u, b).dom() =~= m.dom());
}

proof fn lemma_render_pos(m: Map<u32, SpriteView>, r: Seq<u32>, u: u32, i: int)
    requires
        0 <= i <= r.len(),
        forall|j: int| 0 <= j < i ==> render_le(m[r[j]], m[u]),
        i < r.len() ==> !render_le(m[r[i]], m[u]),
    ensures
        render_pos(m, r, u) == i,
    decreases r.len(),
{
    if r.len() > 0 && i > 0 {
        lemma_render_pos(m, r.drop_first(), u, i - 1);
    }
}

/// Drawn in order: each entry is drawn no later than the ones after it.
pub open spec fn render_sorted(m: Map<u32, SpriteView>, r: Seq<u32>) -> bool {
    forall|i: int, j: int| 0 <= i < j < r.len() ==> render_le(m[r[i]], m[r[j]])
}

proof fn lemma_render_sort(m: Map<u32, SpriteView>, s: Seq<u32>)
    ensures
        render_sorted(m, render_sort(m, s)),
        render_sort(m, s).len() == s.len(),
        forall|x: u32| render_sort(m, s).contains(x) <==> s.contains(x),
    decreases s.len(),
{
    if s.len() > 0 {
        let d = s.drop_last();
        let u = s.last();
        lemma_render_sort(m, d);
        let r = render_sort(m, d);
        let p = render_pos(m, r, u);
        lemma_render_pos_bounds(m, r, u);
        let t = r.insert(p, u);
        assert forall|i: int, j: int| 0 <= i < j < t.len() implies render_le(m[t[i]], m[t[j]]) by {
            if j < p {
                assert(t[i] == r[i] && t[j] == r[j]);
            } else if j == p {
                assert(t[i] == r[i]);
            } else if i > p {
                assert(t[i] == r[i - 1] && t[j] == r[j - 1]);
            } else if i == p {
                assert(t[j] == r[j - 1]);
                assert(!render_le(m[r[p]], m[u]));
                assert(render_le(m[r[p]], m[r[j - 1]]) || p == j - 1);
            } else {
                assert(t[i] == r[i] && t[j] == r[j - 1]);
            }
        }
        assert forall|x: u32| t.contains(x) <==> s.contains(x) by {
            if t.contains(x) {
                let k = choose|k: int| 0 <= k < t.len() && t[k] == x;
                if k < p {
                    assert(r[k] == x);
                    assert(r.contains(x));
                    assert(d.contains(x));
                    let k2 = choose|k2: int| 0 <= k2 < d.len() && d[k2] == x;
                    assert(s[k2] == x);
                } else if k > p {
                    assert(r[k - 1] == x);
                    assert(r.contains(x));
                    assert(d.contains(x));
                    let k2 = choose|k2: int| 0 <= k2 < d.len() && d[k2] == x;
                    assert(s[k2] == x);
                } else {
                    assert(s[s.len() - 1] == x);
                }
            }
            if s.contains(x) {
                let k = choose|k: int| 0 <= k < s.len() && s[k] == x;
                if k == s.len() - 1 {
                    assert(t[p] == x);
                } else {
                    assert(d[k] == x);
                    assert(d.contains(x));
                    assert(r.contains(x));
                    let k2 = choose|k2: int| 0 <= k2 < r.len() && r[k2] == x;
                    if k2 < p {
                        assert(t[k2] == x);
                    } else {
                        assert(t[k2 + 1] == x);
                    }
                }
            }
        }
    }
}

proof fn lemma_render_pos_bounds(m: Map<u32, SpriteView>, r: Seq<u32>, u: u32)
    ensures
        0 <= render_pos(m, r, u) <= r.len(),
        forall|j: int| 0 <= j < render_pos(m, r, u) ==> render_le(m[r[j]], m[u]),
        render_pos(m, r, u) < r.len() ==> !render_le(m[r[render_pos(m, r, u)]], m[u]),
    decreases r.len(),
{
    if r.len() > 0 && render_le(m[r[0]], m[u]) {
        let d = r.drop_first();
        lemma_render_pos_bounds(m, d, u);
        assert forall|j: int| 0 <= j < render_pos(m, r, u) implies render_le(m[r[j]], m[u]) by {
            if j > 0 {
                assert(r[j] == d[j - 1]);
            }
        }
    }
}

/// In the render order, a tile and a unit of equal depth are drawn tile
/// first.
pub proof fn lemma_tile_before_unit(m: Map<u32, SpriteView>, s: Seq<u32>, i: int, j: int)
    requires
        0 <= i < render_sort(m, s).len(),
        0 <= j < render_sort(m, s).len(),
        m[render_sort(m, s)[i]] is Tile,
        m[render_sort(m, s)[j]] is Unit,
        sprite_z(m[render_sort(m, s)[i]]) == sprite_z(m[render_sort(m, s)[j]]),
    ensures
        i < j,
{
    lemma_render_sort(m, s);
}

/// The map's grid can be read for every layer: its sides fit in 32 bits,
/// every layer stores each cell of the grid, and one uuid is given per tile.
pub open spec fn tiles_readable(map: TiledMap, uuids: Seq<u32>) -> bool {
    &&& 0 <= map.height <= u32::MAX
    &&& 0 <= map.width <= u32::MAX
    &&& map.layers@.len() * map.height * map.width <= uuids.len()
    &&& forall|l: int|
        0 <= l < map.layers@.len() ==> {
            let layer = #[trigger] map.layers@[l];
            &&& 0 <= layer.width <= u32::MAX
            &&& map.height == 0 || map.width == 0 || layer.cell_index(map.width - 1, map.height - 1)
                < layer.data@.len()
        }
}

/// The tile of layer `l` at `(x, y)`: its frame is the stored tile id minus
/// one, wrapping at zero.
pub open spec fn map_tile(map: TiledMap, l: int, x: int, y: int, uuid: u32) -> TileSprite {
    let layer = map.layers@[l];
    let id = layer.data@[layer.cell_index(x, y)] as u32;
    TileSprite {
        frame_number: if id == 0 {
            u32::MAX
        } else {
            (id - 1) as u32
        },
        x: x as u32,
        y: y as u32,
        layer: l as u32,
        uuid,
    }
}

/// The uuid given to the tile of layer `l` at `(x, y)`: tiles are numbered
/// layer by layer, row by row.
pub open spec fn tile_uuid(map: TiledMap, uuids: Seq<u32>, l: int, y: int, x: int) -> u32 {
    uuids[(l * map.height + y) * map.width + x]
}

/// Stores a tile; a uuid seen for the first time joins the order.
pub open spec fn add_tile(w: WorldView, t: TileSprite) -> WorldView {
    WorldView {
        entities: w.entities.insert(t.uuid, SpriteView::Tile(t)),
        order: if w.entities.contains_key(t.uuid) {
            w.order
        } else {
            w.order.push(t.uuid)
        },
        ..w
    }
}

/// Adds the first `x` tiles of row `y` of layer `l`.
pub open spec fn row_tiles(map: TiledMap, uuids: Seq<u32>, w: WorldView, l: int, y: int, x: nat) -> WorldView
    decreases x,
{
    if x == 0 {
        w
    } else {
        add_tile(
            row_tiles(map, uuids, w, l, y, (x - 1) as nat),
            map_tile(map, l, x - 1, y, tile_uuid(map, uuids, l, y, x - 1)),
        )
    }
}

/// Adds the first `y` rows of layer `l`.
pub open spec fn layer_tiles(map: TiledMap, uuids: Seq<u32>, w: WorldView, l: int, y: nat) -> WorldView
    decreases y,
{
    if y == 0 {
        w
    } else {
        row_tiles(
            map,
            uuids,
            layer_tiles(map, uuids, w, l, (y - 1) as nat),
            l,
            y - 1,
            map.width as nat,
        )
    }
}

/// The world holding the tiles of the first `l` layers.
pub open spec fn map_tiles(map: TiledMap, uuids: Seq<u32>, l: nat) -> WorldView
    decreases l,
{
    if l == 0 {
        WorldView { entities: Map::empty(), order: seq![], selected: 0 }
    } else {
        layer_tiles(map, uuids, map_tiles(map, uuids, (l - 1) as nat), l - 1, map.height as nat)
    }
}

proof fn lemma_add_tile(w: WorldView, t: TileSprite)
    requires
        world_wf(w),
        w.selected == 0,
    ensures
        world_wf(add_tile(w, t)),
        add_tile(w, t).selected == 0,
{
    let a = add_tile(w, t);
    assert forall|k: u32| #[trigger] a.entities.contains_key(k) implies a.order.contains(k) by {
        if k == t.uuid && !w.entities.contains_key(k) {
            assert(a.order[a.order.len() - 1] == k);
        } else {
            assert(w.order.contains(k));
            let i = choose|i: int| 0 <= i < w.order.len() && w.order[i] == k;
            assert(a.order[i] == k);
        }
    }
    assert forall|i: int| 0 <= i < a.order.len() implies a.entities.contains_key(
        #[trigger] a.order[i],
    ) by {
        if i < w.order.len() {
            assert(a.order[i] == w.order[i]);
        }
    }
}

/// The world made of the map's tiles, with the uuids given in `uuids`, in
/// the order of their first appearance, layer by layer and row by row.
pub fn get_tilemap_spritelist(tilemap: &TiledMap, uuids: &Vec<u32>) -> (r: GameState)
    requires
        tiles_readable(*tilemap, uuids@),
    ensures
        r@ == map_tiles(*tilemap, uuids@, tilemap.layers@.len()),
        world_wf(r@),
{
    let ghost map = *tilemap;
    let mut state = GameState {
        sprite_map: HashMap::new(),
        sprite_uuid_list: Vec::new(),
        selected_entity: 0,
    };
    proof {
        assert(state@.entities =~= Map::<u32, SpriteView>::empty());
        assert(state@.order =~= Seq::<u32>::empty());
    }
    let h = tilemap.height as u64;
    let w = tilemap.width as u64;
    let n_layers = tilemap.layers.len();
    let n_uuids = uuids.len();
    let mut c: usize = 0;
    let mut l: usize = 0;
    assert((0 as int) * h * w == 0) by (nonlinear_arith);
    while l < n_layers
        invariant
            n_uuids == uuids@.len(),
            map == *tilemap,
            n_layers == map.layers@.len(),
            tiles_readable(map, uuids@),
            h == map.height,
            w == map.width,
            0 <= l <= n_layers,
            c == (l as int) * h * w,
            state@ == map_tiles(map, uuids@, l as nat),
            world_wf(state@),
            state@.selected == 0,
        decreases n_layers - l,
    {
        let layer = &tilemap.layers[l];
        let lw = layer.width as u64;
        let dlen = layer.data.len();
        let ghost before_layer = state@;
        assert(0 <= layer.width <= u32::MAX);
        let mut y: u64 = 0;
        while y < h
            invariant
                n_uuids == uuids@.len(),
                map == *tilemap,
                n_layers == map.layers@.len(),
                tiles_readable(map, uuids@),
                h == map.height,
                w == map.width,
                0 <= l < n_layers,
                *layer == map.layers@[l as int],
                lw == layer.width,
                dlen == layer.data@.len(),
                0 <= y <= h,
                c == ((l as int) * h + y) * w,
                before_layer == map_tiles(map, uuids@, l as nat),
                state@ == layer_tiles(map, uuids@, before_layer, l as int, y as nat),
                world_wf(state@),
                state@.selected == 0,
            decreases h - y,
        {
            let ghost before_row = state@;
            let mut x: u64 = 0;
            while x < w
                invariant
                    n_uuids == uuids@.len(),
                    map == *tilemap,
                    n_layers == map.layers@.len(),
                    tiles_readable(map, uuids@),
                    h == map.height,
                    w == map.width,
                    0 <= l < n_layers,
                    *layer == map.layers@[l as int],
                    lw == layer.width,
                    dlen == layer.data@.len(),
                    0 <= y < h,
                    0 <= x <= w,
                    c == ((l as int) * h + y) * w + x,
                    before_row == layer_tiles(map, uuids@, before_layer, l as int, y as nat),
                    state@ == row_tiles(map, uuids@, before_row, l as int, y as int, x as nat),
                    world_wf(state@),
                    state@.selected == 0,
                decreases w - x,
            {
                assert(((l as int) * h + y) * w + x < (n_layers as int) * h * w
                    && 0 <= (y as int) * (lw as int) <= (y as int) * (lw as int) + x <= (h - 1) * lw + (w - 1))
                    by (nonlinear_arith)
                    requires
                        0 <= l < n_layers,
                        0 <= y < h,
                        0 <= x < w,
                        0 <= lw,
                ;
                assert(layer.cell_index(w - 1, h - 1) < layer.data@.len());
                assert((y as int) * (lw as int) + x < dlen);
                let cell = y * lw + x;
                let id = (#[verifier::truncate] (layer.data[cell as usize] as u32));
                let frame = if id == 0 {
                    u32::MAX
                } else {
                    id - 1
                };
                let uuid = uuids[c];
                let tile = TileSprite {
                    frame_number: frame,
                    x: x as u32,
                    y: y as u32,
                    layer: (#[verifier::truncate] (l as u32)),
                    uuid,
                };
                assert(tile == map_tile(map, l as int, x as int, y as int, uuid));
                let is_new = !state.sprite_map.contains_key(&uuid);
                let ghost before_tile = state@;
                let ghost before_map = state.sprite_map@;
                state.sprite_map.insert(uuid, SpriteID::Tile(tile));
                if is_new {
                    state.sprite_uuid_list.push(uuid);
                }
                proof {
                    lemma_views_insert(before_map, uuid, SpriteID::Tile(tile));
                    lemma_add_tile(before_tile, tile);
                    assert(state@ == add_tile(before_tile, tile));
                }
                c = c + 1;
                x = x + 1;
            }
            proof {
                assert(((l as int) * h + y) * w + w == ((l as int) * h + y + 1) * w)
                    by (nonlinear_arith);
            }
            y = y + 1;
        }
        proof {
            assert(((l as int) * h + h) * w == ((l as int) + 1) * h * w) by (nonlinear_arith);
        }
        l = l + 1;
    }
    state
}

/// The entities of one tick.
#[derive(Clone)]
pub struct GameState {
    pub sprite_map: HashMap<u32, SpriteID>,
    pub sprite_uuid_list: Vec<u32>,
    pub selected_entity: u32,
}

impl View for GameState {
    type V = WorldView;

    open spec fn view(&self) -> WorldView {
        WorldView {
            entities: entity_views(self.sprite_map@),
            order: self.sprite_uuid_list@,
            selected: self.selected_entity,
        }
    }
}

impl GameState {
    /// An independent copy of this state.
    pub fn snapshot(&self) -> (r: GameState)
        ensures
            r@ == self@,
    {
        let sprite_map = self.sprite_map.clone();
        let mut list: Vec<u32> = Vec::new();
        let mut i: usize = 0;
        while i < self.sprite_uuid_list.len()
            invariant
                0 <= i <= self.sprite_uuid_list@.len(),
                list@ == self.sprite_uuid_list@.subrange(0, i as int),
            decreases self.sprite_uuid_list@.len() - i,
        {
            list.push(self.sprite_uuid_list[i]);
            i = i + 1;
        }
        proof {
            assert(list@ =~= self.sprite_uuid_list@);
        }
        GameState { sprite_map, sprite_uuid_list: list, selected_entity: self.selected_entity }
    }

    /// Depth and kind rank of the entity under `uuid`.
    fn render_key(&self, uuid: u32) -> (r: (u64, u8))
        requires
            self@.entities.contains_key(uuid),
        ensures
            r.0 == sprite_z(self@.entities[uuid]),
            r.1 == sprite_rank(self@.entities[uuid]),
    {
        match self.sprite_map.get(&uuid) {
            Some(sprite) => (sprite.get_zindex(), sprite.render_rank()),
            None => (0, 0),
        }
    }

    /// Sorts the iteration order by depth, tiles before units at equal
    /// depth, keeping the current order among equals.
    pub fn sort_by_z_index(&mut self)
        requires
            world_wf(old(self)@),
        ensures
            final(self)@ == (WorldView {
                order: render_sort(old(self)@.entities, old(self)@.order),
                ..old(self)@
            }),
            world_wf(final(self)@),
    {
        let ghost m = self@.entities;
        let mut sorted: Vec<u32> = Vec::new();
        let mut i: usize = 0;
        while i < self.sprite_uuid_list.len()
            invariant
                0 <= i <= self.sprite_uuid_list@.len(),
                self@ == old(self)@,
                m == self@.entities,
                world_wf(self@),
                sorted@ == render_sort(m, self.sprite_uuid_list@.subrange(0, i as int)),
            decreases self.sprite_uuid_list@.len() - i,
        {
            let u = self.sprite_uuid_list[i];
            assert(self@.order[i as int] == u);
            let (zu, ru) = self.render_key(u);
            proof {
                assert(self.sprite_uuid_list@.subrange(0, i + 1).drop_last() =~= self.sprite_uuid_list@.subrange(
                    0,
                    i as int,
                ));
                lemma_render_sort(m, self.sprite_uuid_list@.subrange(0, i as int));
            }
            proof {
                assert forall|x: u32| sorted@.contains(x) implies m.contains_key(x) by {
                    let sub = self.sprite_uuid_list@.subrange(0, i as int);
                    assert(sub.contains(x));
                    let k = choose|k: int| 0 <= k < sub.len() && sub[k] == x;
                    assert(self@.order[k] == x);
                }
            }
            let mut j: usize = 0;
            while j < sorted.len()
                invariant
                    0 <= j <= sorted@.len(),
                    self@ == old(self)@,
                    m == self@.entities,
                    world_wf(self@),
                    self@.entities.contains_key(u),
                    zu == sprite_z(m[u]),
                    ru == sprite_rank(m[u]),
                    forall|x: u32| sorted@.contains(x) ==> m.contains_key(x),
                    forall|k: int| 0 <= k < j ==> render_le(m[sorted@[k]], m[u]),
                ensures
                    0 <= j <= sorted@.len(),
                    forall|k: int| 0 <= k < j ==> render_le(m[sorted@[k]], m[u]),
                    j < sorted@.len() ==> !render_le(m[sorted@[j as int]], m[u]),
                decreases sorted@.len() - j,
            {
                assert(sorted@.contains(sorted@[j as int]));
                let (zj, rj) = self.render_key(sorted[j]);
                if !(zj < zu || (zj == zu && rj <= ru)) {
                    break;
                }
                j = j + 1;
            }
            proof {
                lemma_render_pos(m, sorted@, u, j as int);
            }
            sorted.insert(j, u);
            i = i + 1;
        }
        proof {
            assert(self.sprite_uuid_list@.subrange(0, self.sprite_uuid_list@.len() as int)
                =~= self.sprite_uuid_list@);
            lemma_render_sort(m, self.sprite_uuid_list@);
        }
        let ghost old_order = self.sprite_uuid_list@;
        self.sprite_uuid_list = sorted;
        proof {
            let w = self@;
            assert forall|k: int| 0 <= k < w.order.len() implies w.entities.contains_key(
                #[trigger] w.order[k],
            ) by {
                assert(w.order.contains(w.order[k]));
                assert(old_order.contains(w.order[k]));
                let k2 = choose|k2: int| 0 <= k2 < old_order.len() && old_order[k2] == w.order[k];
                assert(old(self)@.order[k2] == w.order[k]);
            }
            assert forall|x: u32| #[trigger] w.entities.contains_key(x) implies w.order.contains(x) by {
                assert(old(self)@.order.contains(x));
            }
        }
    }

    /// The uuid of the last unit in iteration order whose box holds the
    /// point, if any.
    pub fn is_sprite_within_bounds(&self, mouse_coords: WorldPoint) -> (r: Option<u32>)
        ensures
            r == (if hit_uuid(self@.entities, mouse_coords, self@.order) != 0 {
                Some(hit_uuid(self@.entities, mouse_coords, self@.order))
            } else {
                None
            }),
    {
        let mut selected: u32 = 0;
        let mut i: usize = 0;
        while i < self.sprite_uuid_list.len()
            invariant
                0 <= i <= self.sprite_uuid_list@.len(),
                selected == hit_uuid(
                    self@.entities,
                    mouse_coords,
                    self.sprite_uuid_list@.subrange(0, i as int),
                ),
            decreases self.sprite_uuid_list@.len() - i,
        {
            proof {
                assert(self.sprite_uuid_list@.subrange(0, i + 1).drop_last() =~= self.sprite_uuid_list@.subrange(
                    0,
                    i as int,
                ));
            }
            let uuid = self.sprite_uuid_list[i];
            match self.sprite_map.get(&uuid) {
                Some(SpriteID::Engineer(engineer)) => {
                    if engineer.is_within_bounds(mouse_coords) {
                        selected = engineer.get_uuid();
                    }
                },
                _ => {},
            }
            i = i + 1;
        }
        proof {
            assert(self.sprite_uuid_list@.subrange(0, self.sprite_uuid_list@.len() as int)
                =~= self.sprite_uuid_list@);
        }
        if selected != 0 {
            Some(selected)
        } else {
            None
        }
    }

    /// Advances every unit by one tick, in iteration order.
    pub fn process_tick(&mut self, tick: u32)
        requires
            world_wf(old(self)@),
        ensures
            final(self)@ == advance_world(old(self)@),
            world_wf(final(self)@),
    {
        let ghost m0 = old(self)@.entities;
        let mut i: usize = 0;
        while i < self.sprite_uuid_list.len()
            invariant
                0 <= i <= self.sprite_uuid_list@.len(),
                self.sprite_uuid_list@ == old(self)@.order,
                self.selected_entity == old(self)@.selected,
                world_wf(old(self)@),
                m0 == old(self)@.entities,
                self@.entities == tick_all(m0, self.sprite_uuid_list@.subrange(0, i as int)),
            decreases self.sprite_uuid_list@.len() - i,
        {
            let ghost sub = self.sprite_uuid_list@.subrange(0, i as int);
            proof {
                assert(self.sprite_uuid_list@.subrange(0, i + 1).drop_last() =~= sub);
                lemma_tick_all(m0, sub);
            }
            let uuid = self.sprite_uuid_list[i];
            let ghost before = self.sprite_map@;
            match self.sprite_map.remove(&uuid) {
                Some(SpriteID::Engineer(mut engineer)) => {
                    proof {
                        assert(before.remove(uuid).insert(uuid, before[uuid]) =~= before);
                    }
                    engineer.tick(1);
                    let ghost ticked = engineer;
                    self.sprite_map.insert(uuid, SpriteID::Engineer(engineer));
                    proof {
                        assert(self.sprite_map@ =~= before.insert(uuid, SpriteID::Engineer(ticked)));
                        lemma_views_insert(before, uuid, SpriteID::Engineer(ticked));
                    }
                },
                Some(other) => {
                    self.sprite_map.insert(uuid, other);
                    proof {
                        assert(self.sprite_map@ =~= before);
                    }
                },
                None => {},
            }
            i = i + 1;
        }
        proof {
            assert(self.sprite_uuid_list@.subrange(0, self.sprite_uuid_list@.len() as int)
                =~= self.sprite_uuid_list@);
            lemma_tick_all(m0, self.sprite_uuid_list@);
        }
    }

    /// Sets the selected flag of the unit under `uuid` in the map.
    fn flag(&mut self, uuid: u32, selected: bool)
        ensures
            final(self)@ == (WorldView {
                entities: flag_unit(old(self)@.entities, uuid, selected),
                ..old(self)@
            }),
    {
        let ghost before = self.sprite_map@;
        let ghost views = entity_views(before);
        match self.sprite_map.remove(&uuid) {
            Some(SpriteID::Engineer(mut engineer)) => {
                let ghost e0 = engineer;
                assert(views[uuid] == SpriteView::Unit(e0@));
                engineer.set_selected(selected);
                let ghost flagged = engineer;
                self.sprite_map.insert(uuid, SpriteID::Engineer(engineer));
                proof {
                    assert(self.sprite_map@ =~= before.insert(uuid, SpriteID::Engineer(flagged)));
                    lemma_views_insert(before, uuid, SpriteID::Engineer(flagged));
                    assert(self@.entities == flag_unit(views, uuid, selected));
                }
            },
            Some(other) => {
                let ghost o = other;
                self.sprite_map.insert(uuid, other);
                proof {
                    assert(self.sprite_map@ =~= before);
                    assert(views[uuid] == o@);
                    assert(!is_unit(views, uuid));
                    assert(self@.entities == flag_unit(views, uuid, selected));
                }
            },
            None => {
                assert(!views.contains_key(uuid));
                assert(self@.entities == flag_unit(views, uuid, selected));
            },
        }
    }

    /// Selects the unit under `uuid`, clearing the previous selection's flag.
    pub fn mark_new_selected_sprite(&mut self, uuid: u32)
        requires
            world_wf(old(self)@),
        ensures
            final(self)@ == select(old(self)@, uuid),
            world_wf(final(self)@),
    {
        if self.selected_entity != 0 {
            let selected = self.selected_entity;
            self.flag(selected, false);
        }
        proof {
            lemma_flag_unit(old(self)@.entities, old(self)@.selected, false);
        }
        let ghost cleared = self@.entities;
        let is_unit_here = match self.sprite_map.get(&uuid) {
            Some(SpriteID::Engineer(_)) => true,
            _ => false,
        };
        if is_unit_here {
            self.flag(uuid, true);
            self.selected_entity = uuid;
            proof {
                lemma_flag_unit(cleared, uuid, true);
            }
        }
    }
}

} // verus!
