//! Timestamped intents and the queue that keeps them ordered by tick.

use vstd::prelude::*;
use crate::pathfinding::TilePosition;

verus! {

/// Move the selected unit towards `position`, effective at `tick`.
#[derive(Clone, Copy, Debug, Default, PartialEq, Eq, Structural)]
pub struct SpriteMoveRequest {
    pub tick: u32,
    pub sprite_uuid: u32,
    pub position: TilePosition,
}

/// The kinds of entity that a request can create.
#[derive(Clone, Copy, Debug, PartialEq, Eq, Structural)]
pub enum SpriteType {
    Engineer,
}

/// Create an entity of `sprite_type` under `sprite_uuid` at `position`,
/// effective at `tick`.
#[derive(Clone, Copy, Debug, PartialEq, Eq, Structural)]
pub struct SpriteCreateRequest {
    pub tick: u32,
    pub sprite_uuid: u32,
    pub sprite_type: SpriteType,
    pub position: TilePosition,
}

/// An intent stamped with the tick at which it takes effect.
#[derive(Clone, Copy, Debug, PartialEq, Eq, Structural)]
pub enum Request {
    SpriteMove(SpriteMoveRequest),
    SpriteCreate(SpriteCreateRequest),
}

/// Access to the effective tick of a request.
pub trait RequestImpl {
    spec fn tick_of(&self) -> u32;

    fn get_tick(&self) -> (r: u32)
        ensures
            r == self.tick_of(),
    ;
}

impl RequestImpl for Request {
    open spec fn tick_of(&self) -> u32 {
        match self {
            Request::SpriteMove(m) => m.tick,
            Request::SpriteCreate(c) => c.tick,
        }
    }

    fn get_tick(&self) -> (r: u32) {
        match self {
            Request::SpriteMove(m) => m.tick,
            Request::SpriteCreate(c) => c.tick,
        }
    }
}

/// Ticks never decrease along the sequence.
pub open spec fn sorted_by_tick(s: Seq<Request>) -> bool {
    forall|i: int, j: int| 0 <= i < j < s.len() ==> s[i].tick_of() <= s[j].tick_of()
}

/// Where a request of tick `t` goes in `s`: before the first entry of a
/// later tick.
pub open spec fn insert_pos(s: Seq<Request>, t: u32) -> int
    decreases s.len(),
{
    if s.len() == 0 {
        0
    } else if s[0].tick_of() > t {
        0
    } else {
        1 + insert_pos(s.drop_first(), t)
    }
}

/// The entries of `s` due at exactly tick `t`, in order.
pub open spec fn requests_at(s: Seq<Request>, t: u32) -> Seq<Request>
    decreases s.len(),
{
    if s.len() == 0 {
        seq![]
    } else {
        let rest = requests_at(s.drop_last(), t);
        if s.last().tick_of() == t {
            rest.push(s.last())
        } else {
            rest
        }
    }
}

/// The entries of `s` whose tick is at least `t`, in order.
pub open spec fn requests_from(s: Seq<Request>, t: u32) -> Seq<Request>
    decreases s.len(),
{
    if s.len() == 0 {
        seq![]
    } else {
        let rest = requests_from(s.drop_last(), t);
        if s.last().tick_of() >= t {
            rest.push(s.last())
        } else {
            rest
        }
    }
}

proof fn lemma_insert_pos(s: Seq<Request>, t: u32, i: int)
    requires
        0 <= i <= s.len(),
        forall|j: int| 0 <= j < i ==> s[j].tick_of() <= t,
        i < s.len() ==> s[i].tick_of() > t,
    ensures
        insert_pos(s, t) == i,
    decreases s.len(),
{
    if s.len() > 0 && i > 0 {
        lemma_insert_pos(s.drop_first(), t, i - 1);
    }
}

proof fn lemma_requests_from_sorted(s: Seq<Request>, t: u32)
    requires
        sorted_by_tick(s),
    ensures
        sorted_by_tick(requests_from(s, t)),
        forall|x: Request| requests_from(s, t).contains(x) ==> s.contains(x),
    decreases s.len(),
{
    if s.len() > 0 {
        let d = s.drop_last();
        lemma_requests_from_sorted(d, t);
        let rest = requests_from(d, t);
        assert forall|x: Request| requests_from(s, t).contains(x) implies s.contains(x) by {
            if rest.contains(x) {
                assert(d.contains(x));
                let k = choose|k: int| 0 <= k < d.len() && d[k] == x;
                assert(d[k] == s[k]);
            } else {
                assert(s[s.len() - 1] == x);
            }
        }
        if s.last().tick_of() >= t {
            let r = rest.push(s.last());
            assert forall|i: int, j: int| 0 <= i < j < r.len() implies r[i].tick_of()
                <= r[j].tick_of() by {
                if j == r.len() - 1 {
                    assert(r[i] == rest[i]);
                    assert(rest.contains(r[i]));
                    assert(d.contains(r[i]));
                    let k = choose|k: int| 0 <= k < d.len() && d[k] == r[i];
                    assert(d[k] == s[k]);
                }
            }
        }
    }
}

/// Pending requests, ordered by tick; requests of equal tick keep the order
/// in which they were added.
pub struct RequestQueue {
    requests: Vec<Request>,
}

impl View for RequestQueue {
    type V = Seq<Request>;

    closed spec fn view(&self) -> Seq<Request> {
        self.requests@
    }
}

impl Default for RequestQueue {
    fn default() -> (r: Self)
        ensures
            r@ == Seq::<Request>::empty(),
    {
        RequestQueue { requests: Vec::new() }
    }
}

#[allow(non_snake_case)]
impl RequestQueue {
    pub open spec fn wf(&self) -> bool {
        sorted_by_tick(self@)
    }

    /// Adds `request` after every queued request of the same or an earlier
    /// tick.
    pub fn AddRequest(&mut self, request: Request)
        requires
            old(self).wf(),
        ensures
            final(self).wf(),
            final(self)@ == old(self)@.insert(insert_pos(old(self)@, request.tick_of()), request),
    {
        let t = request.get_tick();
        let mut i: usize = 0;
        while i < self.requests.len() && self.requests[i].get_tick() <= t
            invariant
                0 <= i <= self.requests@.len(),
                self@ == old(self)@,
                forall|j: int| 0 <= j < i ==> self.requests@[j].tick_of() <= t,
            decreases self.requests@.len() - i,
        {
            i = i + 1;
        }
        proof {
            lemma_insert_pos(self.requests@, t, i as int);
        }
        self.requests.insert(i, request);
        proof {
            let s = old(self)@;
            let r = self.requests@;
            assert forall|a: int, b: int| 0 <= a < b < r.len() implies r[a].tick_of()
                <= r[b].tick_of() by {
                if a < i && b > i {
                    assert(r[a] == s[a] && r[b] == s[b - 1]);
                } else if a > i {
                    assert(r[a] == s[a - 1] && r[b] == s[b - 1]);
                } else if b < i {
                    assert(r[a] == s[a] && r[b] == s[b]);
                } else if a == i {
                    assert(r[b] == s[b - 1]);
                    assert(s[i as int].tick_of() > t);
                } else {
                    assert(r[a] == s[a]);
                }
            }
        }
    }

    pub fn GetTickOfParticularRequest(request: &Request) -> (r: u32)
        ensures
            r == request.tick_of(),
    {
        request.get_tick()
    }

    /// The queued requests of exactly `tick`, in queue order; the queue is
    /// left as it is.
    pub fn GetRequestsOfParticularTick(&self, tick: u32) -> (r: Vec<Request>)
        ensures
            r@ == requests_at(self@, tick),
    {
        let mut requests: Vec<Request> = Vec::new();
        let mut i: usize = 0;
        while i < self.requests.len()
            invariant
                0 <= i <= self.requests@.len(),
                requests@ == requests_at(self.requests@.subrange(0, i as int), tick),
            decreases self.requests@.len() - i,
        {
            proof {
                assert(self.requests@.subrange(0, i + 1).drop_last() =~= self.requests@.subrange(
                    0,
                    i as int,
                ));
            }
            if self.requests[i].get_tick() == tick {
                requests.push(self.requests[i]);
            }
            i = i + 1;
        }
        proof {
            assert(self.requests@.subrange(0, self.requests@.len() as int) =~= self.requests@);
        }
        requests
    }

    /// Drops every request of a tick before `tick`.
    pub fn PurgeRequestsOlderThanTick(&mut self, tick: u32)
        requires
            old(self).wf(),
        ensures
            final(self).wf(),
            final(self)@ == requests_from(old(self)@, tick),
    {
        let mut kept: Vec<Request> = Vec::new();
        let mut i: usize = 0;
        while i < self.requests.len()
            invariant
                0 <= i <= self.requests@.len(),
                kept@ == requests_from(self.requests@.subrange(0, i as int), tick),
            decreases self.requests@.len() - i,
        {
            proof {
                assert(self.requests@.subrange(0, i + 1).drop_last() =~= self.requests@.subrange(
                    0,
                    i as int,
                ));
            }
            if self.requests[i].get_tick() >= tick {
                kept.push(self.requests[i]);
            }
            i = i + 1;
        }
        proof {
            assert(self.requests@.subrange(0, self.requests@.len() as int) =~= self.requests@);
            lemma_requests_from_sorted(self.requests@, tick);
        }
        self.requests = kept;
    }

    pub fn GetNumberOfRequests(&self) -> (r: usize)
        ensures
            r == self@.len(),
    {
        self.requests.len()
    }
}

} // verus!
