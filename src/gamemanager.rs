//! The tick engine: applies due requests, advances the world one tick at a
//! time, keeps a bounded history of snapshots and rewinds and replays when a
//! late request arrives.

use vstd::prelude::*;
use std::collections::HashMap;
use crate::gamestate::{
    advance_world, entity_views, get_tilemap_spritelist, hit_uuid, is_unit, map_tiles, select,
    tiles_readable, unit_of, world_wf, GameState, WorldView,
};
use crate::tiledmap::TiledMap;
use crate::pathfinding::{Pathfinder, TilePosition};
use crate::requests::{
    insert_pos, requests_at, requests_from, sorted_by_tick, Request, RequestImpl, RequestQueue,
    SpriteMoveRequest, SpriteType,
};
use crate::sprites::{new_unit, with_path, Engineer, SpriteID, SpriteView, WorldPoint};

verus! {

broadcast use vstd::std_specs::hash::group_hash_axioms;

/// Number of past ticks whose snapshots are kept.
pub const HISTORY_TICKS: u32 = 47;

/// Age, in ticks, from which a late request can no longer be reconciled.
pub const DESYNC_AGE: u32 = 45;

/// Ticks between a local click and the move request it schedules.
pub const MOVE_DELAY: u32 = 10;

/// Milliseconds of wall-clock time per simulation tick.
pub const TICK_MS: u64 = 50;

/// Outcome of submitting a request.
#[derive(Clone, Copy, Debug, PartialEq, Eq, Structural)]
pub enum RequestStatus {
    Synchronized,
    Desynchronized,
}

/// The engine as the simulation sees it.
pub struct EngineView {
    pub requests: Seq<Request>,
    pub history: Map<u32, WorldView>,
    pub current: WorldView,
    pub head: u32,
}

/// The views of the snapshots of a history.
pub open spec fn history_views(m: Map<u32, GameState>) -> Map<u32, WorldView> {
    m.map_values(|g: GameState| g@)
}

/// Applies one request to the world. A move goes to the selected unit, if
/// any, with a path from where it stands; a create adds a fresh unit.
pub open spec fn apply_request(pf: Pathfinder, w: WorldView, r: Request) -> WorldView {
    match r {
        Request::SpriteMove(m) => {
            if w.selected != 0 && is_unit(w.entities, w.selected) {
                let e = unit_of(w.entities[w.selected]);
                let path = pf.path_between(TilePosition { x: e.x, y: e.y }, m.position);
                WorldView {
                    entities: w.entities.insert(w.selected, SpriteView::Unit(with_path(e, path))),
                    ..w
                }
            } else {
                w
            }
        },
        Request::SpriteCreate(c) => match c.sprite_type {
            SpriteType::Engineer => WorldView {
                entities: w.entities.insert(
                    c.sprite_uuid,
                    SpriteView::Unit(new_unit(c.position.x, c.position.y, c.sprite_uuid)),
                ),
                order: w.order.push(c.sprite_uuid),
                ..w
            },
        },
    }
}

/// Applies the requests of `rs` in order.
pub open spec fn apply_all(pf: Pathfinder, w: WorldView, rs: Seq<Request>) -> WorldView
    decreases rs.len(),
{
    if rs.len() == 0 {
        w
    } else {
        apply_request(pf, apply_all(pf, w, rs.drop_last()), rs.last())
    }
}

/// The world after the work of tick `t`: its due requests, then one tick.
pub open spec fn tick_world(pf: Pathfinder, w: WorldView, q: Seq<Request>, t: u32) -> WorldView {
    advance_world(apply_all(pf, w, requests_at(q, t)))
}

/// The work of tick `t`: the new world is stored at `t`, and the snapshot
/// `HISTORY_TICKS` ticks older is dropped.
pub open spec fn work(pf: Pathfinder, e: EngineView, t: u32) -> EngineView {
    let w = tick_world(pf, e.current, e.requests, t);
    let h = e.history.insert(t, w);
    EngineView {
        current: w,
        history: if t > HISTORY_TICKS {
            h.remove((t - HISTORY_TICKS) as u32)
        } else {
            h
        },
        ..e
    }
}

/// The work of ticks `from` to `to`, in order.
pub open spec fn replay(pf: Pathfinder, e: EngineView, from: int, to: int) -> EngineView
    decreases to + 1 - from,
{
    if from > to {
        e
    } else {
        replay(pf, work(pf, e, from as u32), from + 1, to)
    }
}

/// Advancing to `t`: forward, the head moves to `t` and `t` is worked;
/// otherwise the snapshot at `t` is restored and ticks `t` to the head are
/// worked again.
pub open spec fn advance(pf: Pathfinder, e: EngineView, t: u32) -> EngineView {
    if t > e.head {
        work(pf, EngineView { head: t, ..e }, t)
    } else {
        replay(pf, EngineView { current: e.history[t], ..e }, t as int, e.head as int)
    }
}

/// Submitting a request: it joins the queue; a request of the recent past
/// rewinds the engine to its tick; one `DESYNC_AGE` or more ticks old (once
/// the head is past that age) is reported as desynchronized; otherwise the
/// queue drops requests older than the history.
pub open spec fn submit(pf: Pathfinder, e: EngineView, r: Request) -> (EngineView, RequestStatus) {
    let t = r.tick_of();
    let h = e.head;
    let queued = EngineView {
        requests: e.requests.insert(insert_pos(e.requests, t), r),
        ..e
    };
    if t < h && h - t < DESYNC_AGE {
        (advance(pf, queued, t), RequestStatus::Synchronized)
    } else if h > DESYNC_AGE && t < h && h - t >= DESYNC_AGE {
        (queued, RequestStatus::Desynchronized)
    } else if h > HISTORY_TICKS {
        (
            EngineView {
                requests: requests_from(queued.requests, (h - HISTORY_TICKS) as u32),
                ..queued
            },
            RequestStatus::Synchronized,
        )
    } else {
        (queued, RequestStatus::Synchronized)
    }
}

/// `k` forward steps of one tick each.
pub open spec fn advance_ticks(pf: Pathfinder, e: EngineView, k: nat) -> EngineView
    decreases k,
{
    if k == 0 {
        e
    } else {
        advance_ticks(pf, advance(pf, e, (e.head + 1) as u32), (k - 1) as nat)
    }
}

/// The engine right after start-up: no requests, the map's tiles, head 0,
/// and the work of tick 0 done.
pub open spec fn initial_engine(pf: Pathfinder, tiles: WorldView) -> EngineView {
    work(
        pf,
        EngineView { requests: seq![], history: Map::empty(), current: tiles, head: 0 },
        0,
    )
}

/// The ticks whose snapshots the engine holds at head `h`: tick 0, and the
/// ticks from `h - 46` to `h`.
pub open spec fn in_window(t: u32, h: u32) -> bool {
    t <= h && (t == 0 || t + HISTORY_TICKS - 1 >= h)
}

pub open spec fn engine_wf(e: EngineView) -> bool {
    &&& sorted_by_tick(e.requests)
    &&& world_wf(e.current)
    &&& forall|t: u32| #[trigger] e.history.contains_key(t) ==> world_wf(e.history[t])
    &&& forall|t: u32| #[trigger] e.history.contains_key(t) <==> in_window(t, e.head)
}

proof fn lemma_apply_request(pf: Pathfinder, w: WorldView, r: Request)
    requires
        world_wf(w),
    ensures
        world_wf(apply_request(pf, w, r)),
{
    let a = apply_request(pf, w, r);
    match r {
        Request::SpriteMove(m) => {},
        Request::SpriteCreate(c) => {
            assert forall|k: u32| #[trigger] a.entities.contains_key(k) implies a.order.contains(k) by {
                if k == c.sprite_uuid {
                    assert(a.order[a.order.len() - 1] == k);
                } else {
                    assert(w.order.contains(k));
                    let i = choose|i: int| 0 <= i < w.order.len() && w.order[i] == k;
                    assert(a.order[i] == k);
                }
            }
            assert forall|i: int| 0 <= i < a.order.len() implies a.entities.contains_key(
                #[trigger] a.order[i],
            ) by {
                if i < w.order.len() {
                    assert(a.order[i] == w.order[i]);
                }
            }
        },
    }
}

proof fn lemma_apply_all(pf: Pathfinder, w: WorldView, rs: Seq<Request>)
    requires
        world_wf(w),
    ensures
        world_wf(apply_all(pf, w, rs)),
    decreases rs.len(),
{
    if rs.len() > 0 {
        lemma_apply_all(pf, w, rs.drop_last());
        lemma_apply_request(pf, apply_all(pf, w, rs.drop_last()), rs.last());
    }
}

proof fn lemma_advance_world(w: WorldView)
    requires
        world_wf(w),
    ensures
        world_wf(advance_world(w)),
{
    crate::gamestate::lemma_tick_all_wf(w.entities, w.order);
}

proof fn lemma_work(pf: Pathfinder, e: EngineView, t: u32)
    requires
        sorted_by_tick(e.requests),
        world_wf(e.current),
        forall|s: u32| #[trigger] e.history.contains_key(s) ==> world_wf(e.history[s]),
    ensures
        world_wf(work(pf, e, t).current),
        forall|s: u32| #[trigger]
            work(pf, e, t).history.contains_key(s) ==> world_wf(work(pf, e, t).history[s]),
        forall|s: u32| #[trigger]
            work(pf, e, t).history.contains_key(s) <==> (s == t || (e.history.contains_key(s) && !(
            t > HISTORY_TICKS && s == t - HISTORY_TICKS))),
        work(pf, e, t).requests == e.requests,
        work(pf, e, t).head == e.head,
{
    lemma_apply_all(pf, e.current, requests_at(e.requests, t));
    lemma_advance_world(apply_all(pf, e.current, requests_at(e.requests, t)));
}

/// A forward step of one tick keeps the engine well formed.
pub proof fn lemma_forward(pf: Pathfinder, e: EngineView, t: u32)
    requires
        engine_wf(e),
        t == e.head + 1,
    ensures
        engine_wf(advance(pf, e, t)),
{
    let e1 = EngineView { head: t, ..e };
    lemma_work(pf, e1, t);
    let a = advance(pf, e, t);
    assert forall|s: u32| #[trigger] a.history.contains_key(s) <==> in_window(s, a.head) by {
        assert(e.history.contains_key(s) <==> in_window(s, e.head));
    }
}

/// Advancing one tick to `t` past `HISTORY_TICKS` leaves exactly the
/// snapshots of tick 0 and of the `HISTORY_TICKS` ticks ending at `t`.
pub proof fn lemma_retention(pf: Pathfinder, e: EngineView, t: u32)
    requires
        engine_wf(e),
        t == e.head + 1,
        t > HISTORY_TICKS,
    ensures
        forall|s: u32| #[trigger]
            advance(pf, e, t).history.contains_key(s) <==> (s == 0 || (t - (HISTORY_TICKS - 1)
                <= s && s <= t)),
{
    lemma_forward(pf, e, t);
}

/// Past a head of `DESYNC_AGE`, a request exactly `DESYNC_AGE` ticks old is
/// reported as desynchronized and only joins the queue, while one a tick
/// younger is reconciled by rewinding to its tick, whose snapshot is held.
pub proof fn lemma_desync_boundary(pf: Pathfinder, e: EngineView, r: Request)
    requires
        engine_wf(e),
        e.head > DESYNC_AGE,
    ensures
        ({
            let queued = EngineView {
                requests: e.requests.insert(insert_pos(e.requests, r.tick_of()), r),
                ..e
            };
            &&& r.tick_of() == e.head - DESYNC_AGE ==> submit(pf, e, r) == (
                queued,
                RequestStatus::Desynchronized,
            )
            &&& r.tick_of() == e.head - (DESYNC_AGE - 1) ==> {
                &&& e.history.contains_key(r.tick_of())
                &&& r.tick_of() < e.head
                &&& submit(pf, e, r) == (advance(pf, queued, r.tick_of()), RequestStatus::Synchronized)
            }
        }),
{
    assert(in_window((e.head - (DESYNC_AGE - 1)) as u32, e.head));
}

/// The two histories hold the same snapshots for the ticks `lo` to `hi`.
pub open spec fn agree(h1: Map<u32, WorldView>, h2: Map<u32, WorldView>, lo: int, hi: int) -> bool {
    forall|s: u32|
        lo <= s <= hi ==> (#[trigger] h1.contains_key(s) == h2.contains_key(s)) && (h1.contains_key(
            s,
        ) ==> h1[s] == h2[s])
}

proof fn lemma_replay_agree(pf: Pathfinder, a: EngineView, b: EngineView, lo: int, from: int, to: int)
    requires
        a.current == b.current,
        a.requests == b.requests,
        0 <= lo <= from,
        from <= to + 1,
        to <= u32::MAX,
        agree(a.history, b.history, lo, from - 1),
    ensures
        replay(pf, a, from, to).current == replay(pf, b, from, to).current,
        agree(replay(pf, a, from, to).history, replay(pf, b, from, to).history, lo, to),
    decreases to + 1 - from,
{
    if from <= to {
        let a1 = work(pf, a, from as u32);
        let b1 = work(pf, b, from as u32);
        lemma_replay_agree(pf, a1, b1, lo, from + 1, to);
    }
}

/// Rewinding is deterministic: the world and the snapshots it recomputes
/// depend only on the snapshot rewound to, the queue and the map, whatever
/// the live world or the other snapshots were.
pub proof fn lemma_rewind_deterministic(pf: Pathfinder, e1: EngineView, e2: EngineView, t: u32)
    requires
        e1.requests == e2.requests,
        e1.head == e2.head,
        t <= e1.head,
        e1.history.contains_key(t),
        e2.history.contains_key(t),
        e1.history[t] == e2.history[t],
    ensures
        advance(pf, e1, t).current == advance(pf, e2, t).current,
        agree(advance(pf, e1, t).history, advance(pf, e2, t).history, t as int, e1.head as int),
{
    lemma_replay_agree(
        pf,
        EngineView { current: e1.history[t], ..e1 },
        EngineView { current: e2.history[t], ..e2 },
        t as int,
        t as int,
        e1.head as int,
    );
}

/// The simulation engine.
pub struct GameManager {
    pub requests: RequestQueue,
    pub game_state_history: HashMap<u32, GameState>,
    pub current_game_state: GameState,
    pub last_tick: u32,
    pub pathfinder: Pathfinder,
}

impl View for GameManager {
    type V = EngineView;

    open spec fn view(&self) -> EngineView {
        EngineView {
            requests: self.requests@,
            history: history_views(self.game_state_history@),
            current: self.current_game_state@,
            head: self.last_tick,
        }
    }
}

#[allow(non_snake_case)]
impl GameManager {
    /// Advances to `tick`: one tick forward, or back to a tick whose
    /// snapshot is held, replaying every tick up to the head again.
    pub fn process_tick(&mut self, tick: u32)
        requires
            engine_wf(old(self)@),
            tick <= old(self).last_tick + 1,
            tick <= old(self).last_tick ==> old(self)@.history.contains_key(tick),
        ensures
            final(self)@ == advance(old(self).pathfinder, old(self)@, tick),
            final(self).pathfinder == old(self).pathfinder,
            engine_wf(final(self)@),
    {
        let ghost pf = self.pathfinder;
        if tick > self.last_tick {
            self.last_tick = tick;
            proof {
                lemma_work(pf, self@, tick);
            }
            self.process_tick_work(tick);
            proof {
                assert forall|s: u32| #[trigger]
                    self@.history.contains_key(s) <==> in_window(s, self@.head) by {
                    assert(old(self)@.history.contains_key(s) <==> in_window(s, old(self)@.head));
                }
            }
        } else {
            let restored = match self.game_state_history.get(&tick) {
                Some(snapshot) => snapshot.snapshot(),
                None => self.current_game_state.snapshot(),
            };
            self.current_game_state = restored;
            let ghost e0 = self@;
            assert(e0 == EngineView { current: old(self)@.history[tick], ..old(self)@ });
            let head = self.last_tick;
            let mut t: u64 = tick as u64;
            while t <= head as u64
                invariant
                    tick <= t <= head + 1,
                    head == self.last_tick,
                    head == old(self).last_tick,
                    self.pathfinder == pf,
                    in_window(tick, head),
                    replay(pf, e0, tick as int, head as int) == replay(
                        pf,
                        self@,
                        t as int,
                        head as int,
                    ),
                    sorted_by_tick(self@.requests),
                    world_wf(self@.current),
                    forall|s: u32| #[trigger]
                        self@.history.contains_key(s) ==> world_wf(self@.history[s]),
                    forall|s: u32| #[trigger]
                        self@.history.contains_key(s) <==> ((in_window(s, head) || (tick <= s
                            && s < t)) && !(s >= 1 && tick <= s + HISTORY_TICKS && s
                            + HISTORY_TICKS < t)),
                decreases head + 1 - t,
            {
                let ghost before = self@;
                proof {
                    lemma_work(pf, before, t as u32);
                }
                self.process_tick_work(t as u32);
                proof {
                    assert(replay(pf, before, t as int, head as int) == replay(
                        pf,
                        work(pf, before, t as u32),
                        t + 1,
                        head as int,
                    ));
                    assert forall|s: u32| #[trigger]
                        self@.history.contains_key(s) <==> ((in_window(s, head) || (tick <= s
                            && s < t + 1)) && !(s >= 1 && tick <= s + HISTORY_TICKS && s
                            + HISTORY_TICKS < t + 1)) by {
                        assert(before.history.contains_key(s) <==> ((in_window(s, head) || (tick
                            <= s && s < t)) && !(s >= 1 && tick <= s + HISTORY_TICKS && s
                            + HISTORY_TICKS < t)));
                    }
                }
                t = t + 1;
            }
            proof {
                assert forall|s: u32| #[trigger]
                    self@.history.contains_key(s) <==> in_window(s, self@.head) by {}
            }
        }
    }

    /// The engine for a map: its tiles with the given uuids (one per tile,
    /// layer by layer, row by row), an empty queue, head 0 and tick 0 worked.
    pub fn initialize(tilemap: TiledMap, tile_uuids: &Vec<u32>) -> (r: GameManager)
        requires
            tiles_readable(tilemap, tile_uuids@),
        ensures
            r.pathfinder.map() == tilemap,
            r@ == initial_engine(
                r.pathfinder,
                map_tiles(tilemap, tile_uuids@, tilemap.layers@.len()),
            ),
            engine_wf(r@),
    {
        let state = get_tilemap_spritelist(&tilemap, tile_uuids);
        let pathfinder = Pathfinder::new(tilemap);
        let mut manager = GameManager {
            requests: RequestQueue::default(),
            game_state_history: HashMap::new(),
            current_game_state: state,
            last_tick: 0,
            pathfinder,
        };
        proof {
            assert(history_views(manager.game_state_history@) =~= Map::<u32, WorldView>::empty());
            lemma_work(manager.pathfinder, manager@, 0);
        }
        manager.process_tick_work(0);
        proof {
            assert forall|s: u32| #[trigger]
                manager@.history.contains_key(s) <==> in_window(s, manager@.head) by {}
        }
        manager
    }

    /// Advances one tick for each whole `TICK_MS` of `elapsed_ms`; returns
    /// the milliseconds left over.
    pub fn drive(&mut self, elapsed_ms: u64) -> (r: u64)
        requires
            engine_wf(old(self)@),
            old(self).last_tick + elapsed_ms / TICK_MS <= u32::MAX,
        ensures
            r == elapsed_ms % TICK_MS,
            final(self)@ == advance_ticks(old(self).pathfinder, old(self)@, (elapsed_ms / TICK_MS) as nat),
            final(self).pathfinder == old(self).pathfinder,
            engine_wf(final(self)@),
    {
        let ticks = elapsed_ms / TICK_MS;
        let mut done: u64 = 0;
        while done < ticks
            invariant
                0 <= done <= ticks,
                ticks == elapsed_ms / TICK_MS,
                engine_wf(self@),
                self.pathfinder == old(self).pathfinder,
                self.last_tick == old(self).last_tick + done,
                old(self).last_tick + ticks <= u32::MAX,
                advance_ticks(old(self).pathfinder, old(self)@, ticks as nat) == advance_ticks(
                    self.pathfinder,
                    self@,
                    (ticks - done) as nat,
                ),
            decreases ticks - done,
        {
            let next = self.last_tick + 1;
            proof {
                lemma_forward(self.pathfinder, self@, next);
            }
            self.process_tick(next);
            done = done + 1;
        }
        elapsed_ms % TICK_MS
    }

    /// Submits a request from the local player.
    pub fn addLocalRequest(&mut self, request: Request) -> (r: RequestStatus)
        requires
            engine_wf(old(self)@),
        ensures
            (final(self)@, r) == submit(old(self).pathfinder, old(self)@, request),
            final(self).pathfinder == old(self).pathfinder,
            engine_wf(final(self)@),
    {
        self.addRequest(request)
    }

    /// Submits a request received from the remote peer.
    pub fn addNetworkRequest(&mut self, request: Request) -> (r: RequestStatus)
        requires
            engine_wf(old(self)@),
        ensures
            (final(self)@, r) == submit(old(self).pathfinder, old(self)@, request),
            final(self).pathfinder == old(self).pathfinder,
            engine_wf(final(self)@),
    {
        self.addRequest(request)
    }

    /// Queues `request`; rewinds and replays when it targets a recent past
    /// tick, reports it when it is too old to reconcile, and otherwise drops
    /// requests older than the history.
    pub fn addRequest(&mut self, request: Request) -> (r: RequestStatus)
        requires
            engine_wf(old(self)@),
        ensures
            (final(self)@, r) == submit(old(self).pathfinder, old(self)@, request),
            final(self).pathfinder == old(self).pathfinder,
            engine_wf(final(self)@),
    {
        self.requests.AddRequest(request);
        assert(self@ == EngineView { requests: self.requests@, ..old(self)@ });
        assert(engine_wf(self@));
        let tick = request.get_tick();
        if tick < self.last_tick && self.last_tick - tick < DESYNC_AGE {
            self.process_tick(tick);
            RequestStatus::Synchronized
        } else if self.last_tick > DESYNC_AGE && tick < self.last_tick && self.last_tick - tick
            >= DESYNC_AGE {
            RequestStatus::Desynchronized
        } else {
            if self.last_tick > HISTORY_TICKS {
                self.requests.PurgeRequestsOlderThanTick(self.last_tick - HISTORY_TICKS);
            }
            RequestStatus::Synchronized
        }
    }

    /// A click: select the unit under the point, if any; otherwise, with a
    /// unit selected, schedule a move of it to `clicked_tile` `MOVE_DELAY`
    /// ticks ahead.
    pub fn mouse_clicked(&mut self, mouse_coords: WorldPoint, clicked_tile: TilePosition)
        requires
            engine_wf(old(self)@),
            old(self).last_tick + MOVE_DELAY <= u32::MAX,
        ensures
            ({
                let e = old(self)@;
                let hit = hit_uuid(e.current.entities, mouse_coords, e.current.order);
                let request = Request::SpriteMove(
                    SpriteMoveRequest {
                        tick: (e.head + MOVE_DELAY) as u32,
                        sprite_uuid: e.current.selected,
                        position: clicked_tile,
                    },
                );
                if hit != 0 {
                    final(self)@ == EngineView { current: select(e.current, hit), ..e }
                } else if e.current.selected != 0 {
                    final(self)@ == submit(old(self).pathfinder, e, request).0
                } else {
                    final(self)@ == e
                }
            }),
            final(self).pathfinder == old(self).pathfinder,
            engine_wf(final(self)@),
    {
        let selected_unit_uuid = self.current_game_state.is_sprite_within_bounds(mouse_coords);
        match selected_unit_uuid {
            Some(unit_uuid) => {
                self.current_game_state.mark_new_selected_sprite(unit_uuid);
            },
            None => {
                if self.current_game_state.selected_entity != 0 {
                    let request = Request::SpriteMove(
                        SpriteMoveRequest {
                            tick: self.last_tick + MOVE_DELAY,
                            sprite_uuid: self.current_game_state.selected_entity,
                            position: clicked_tile,
                        },
                    );
                    self.addLocalRequest(request);
                }
            },
        }
    }

    /// The work of one tick: apply the requests due at `tick`, advance the
    /// world, store a snapshot at `tick` and drop the one `HISTORY_TICKS`
    /// ticks older.
    pub fn process_tick_work(&mut self, tick: u32)
        requires
            sorted_by_tick(old(self)@.requests),
            world_wf(old(self)@.current),
            forall|s: u32| #[trigger]
                old(self)@.history.contains_key(s) ==> world_wf(old(self)@.history[s]),
        ensures
            final(self)@ == work(old(self).pathfinder, old(self)@, tick),
            final(self).pathfinder == old(self).pathfinder,
            sorted_by_tick(final(self)@.requests),
            world_wf(final(self)@.current),
            forall|s: u32| #[trigger]
                final(self)@.history.contains_key(s) ==> world_wf(final(self)@.history[s]),
    {
        proof {
            lemma_work(self.pathfinder, self@, tick);
        }
        let requests_to_be_processed = self.requests.GetRequestsOfParticularTick(tick);
        let ghost w0 = self@.current;
        let mut i: usize = 0;
        while i < requests_to_be_processed.len()
            invariant
                0 <= i <= requests_to_be_processed@.len(),
                requests_to_be_processed@ == requests_at(old(self)@.requests, tick),
                self@ == (EngineView {
                    current: apply_all(
                        old(self).pathfinder,
                        w0,
                        requests_to_be_processed@.subrange(0, i as int),
                    ),
                    ..old(self)@
                }),
                w0 == old(self)@.current,
                world_wf(w0),
                self.pathfinder == old(self).pathfinder,
            decreases requests_to_be_processed@.len() - i,
        {
            proof {
                assert(requests_to_be_processed@.subrange(0, i + 1).drop_last()
                    =~= requests_to_be_processed@.subrange(0, i as int));
                lemma_apply_all(
                    self.pathfinder,
                    w0,
                    requests_to_be_processed@.subrange(0, i as int),
                );
            }
            self.process_request(&requests_to_be_processed[i]);
            i = i + 1;
        }
        proof {
            assert(requests_to_be_processed@.subrange(0, requests_to_be_processed@.len() as int)
                =~= requests_to_be_processed@);
            lemma_apply_all(self.pathfinder, w0, requests_to_be_processed@);
        }
        self.current_game_state.process_tick(tick);
        let snapshot = self.current_game_state.snapshot();
        let ghost h0 = self.game_state_history@;
        let ghost snap = snapshot;
        self.game_state_history.insert(tick, snapshot);
        proof {
            assert(history_views(h0.insert(tick, snap)) =~= history_views(h0).insert(tick, snap@));
        }
        if tick > HISTORY_TICKS {
            let ghost h1 = self.game_state_history@;
            self.game_state_history.remove(&(tick - HISTORY_TICKS));
            proof {
                assert(history_views(h1.remove((tick - HISTORY_TICKS) as u32)) =~= history_views(
                    h1,
                ).remove((tick - HISTORY_TICKS) as u32));
            }
        }
    }

    /// Applies one request to the live world.
    pub fn process_request(&mut self, request: &Request)
        requires
            world_wf(old(self)@.current),
        ensures
            final(self)@ == (EngineView {
                current: apply_request(old(self).pathfinder, old(self)@.current, *request),
                ..old(self)@
            }),
            final(self).pathfinder == old(self).pathfinder,
            world_wf(final(self)@.current),
    {
        proof {
            lemma_apply_request(self.pathfinder, self@.current, *request);
        }
        match request {
            Request::SpriteMove(sprite_move) => {
                let selected = self.current_game_state.selected_entity;
                if selected != 0 {
                    let ghost before = self.current_game_state.sprite_map@;
                    let ghost views = entity_views(before);
                    match self.current_game_state.sprite_map.remove(&selected) {
                        Some(SpriteID::Engineer(mut engineer)) => {
                            let ghost e0 = engineer;
                            assert(views[selected] == SpriteView::Unit(e0@));
                            assert(world_wf(old(self)@.current));
                            assert(crate::sprites::unit_wf(e0@));
                            let path = self.pathfinder.find_path(
                                engineer.get_tile_pos(),
                                sprite_move.position,
                            );
                            engineer.update_path(path);
                            let ghost moved = engineer;
                            self.current_game_state.sprite_map.insert(
                                selected,
                                SpriteID::Engineer(engineer),
                            );
                            proof {
                                assert(self.current_game_state.sprite_map@ =~= before.insert(
                                    selected,
                                    SpriteID::Engineer(moved),
                                ));
                                assert(entity_views(before.insert(selected, SpriteID::Engineer(moved)))
                                    =~= views.insert(selected, SpriteView::Unit(moved@)));
                            }
                        },
                        Some(other) => {
                            let ghost o = other;
                            self.current_game_state.sprite_map.insert(selected, other);
                            proof {
                                assert(self.current_game_state.sprite_map@ =~= before);
                                assert(views[selected] == o@);
                            }
                        },
                        None => {},
                    }
                }
            },
            Request::SpriteCreate(create) => {
                match create.sprite_type {
                    SpriteType::Engineer => {
                        let engineer = Engineer::new(
                            create.position.x,
                            create.position.y,
                            create.sprite_uuid,
                        );
                        let ghost before = self.current_game_state.sprite_map@;
                        let ghost made = engineer;
                        self.current_game_state.sprite_map.insert(
                            create.sprite_uuid,
                            SpriteID::Engineer(engineer),
                        );
                        self.current_game_state.sprite_uuid_list.push(create.sprite_uuid);
                        proof {
                            assert(entity_views(before.insert(create.sprite_uuid, SpriteID::Engineer(made)))
                                =~= entity_views(before).insert(create.sprite_uuid, SpriteView::Unit(made@)));
                        }
                    },
                }
            },
        }
    }
}

} // verus!
