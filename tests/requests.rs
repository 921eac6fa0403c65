use engineers::pathfinding::TilePosition;
use engineers::requests::{
    Request, RequestImpl, RequestQueue, SpriteCreateRequest, SpriteMoveRequest, SpriteType,
};

fn move_at(tick: u32, sprite_uuid: u32) -> Request {
    Request::SpriteMove(SpriteMoveRequest {
        tick,
        sprite_uuid,
        position: TilePosition { x: 0, y: 0 },
    })
}

#[test]
#[allow(non_snake_case)]
fn TestRequestSorting() {
    let mut request_queue: RequestQueue = RequestQueue::default();
    let request_1: Request = Request::SpriteMove(SpriteMoveRequest {
        tick: 13,
        sprite_uuid: 12,
        position: TilePosition { x: 0, y: 0 },
    });
    let request_2: Request = Request::SpriteMove(SpriteMoveRequest {
        tick: 17,
        sprite_uuid: 113232,
        position: TilePosition { x: 0, y: 0 },
    });
    request_queue.AddRequest(request_2);
    assert_eq!(request_queue.GetNumberOfRequests() == 1, true);
    request_queue.AddRequest(request_1);
    let mut returned_requests = request_queue.GetRequestsOfParticularTick(request_1.get_tick());
    assert_eq!(returned_requests.len() == 1, true);
    assert_eq!(returned_requests[0].get_tick() == 13, true);
    assert_eq!(request_queue.GetNumberOfRequests() == 2, true);
    request_queue.PurgeRequestsOlderThanTick(14);
    assert_eq!(request_queue.GetNumberOfRequests() == 1, true);
    returned_requests = request_queue.GetRequestsOfParticularTick(request_2.get_tick());
    assert_eq!(returned_requests.len() == 1, true);
    assert_eq!(returned_requests[0].get_tick() == request_2.get_tick(), true);
}

#[test]
fn equal_ticks_keep_insertion_order() {
    let mut queue = RequestQueue::default();
    queue.AddRequest(move_at(5, 1));
    queue.AddRequest(move_at(3, 2));
    queue.AddRequest(move_at(5, 3));
    queue.AddRequest(move_at(4, 4));
    queue.AddRequest(move_at(5, 5));
    let due = queue.GetRequestsOfParticularTick(5);
    let uuids: Vec<u32> = due
        .iter()
        .map(|r| match r {
            Request::SpriteMove(m) => m.sprite_uuid,
            Request::SpriteCreate(c) => c.sprite_uuid,
        })
        .collect();
    assert_eq!(uuids, vec![1, 3, 5]);
    assert_eq!(queue.GetRequestsOfParticularTick(6).len(), 0);
}

#[test]
fn purge_keeps_the_boundary_tick() {
    let mut queue = RequestQueue::default();
    for t in [9u32, 10, 11, 10, 2] {
        queue.AddRequest(move_at(t, t));
    }
    queue.PurgeRequestsOlderThanTick(10);
    assert_eq!(queue.GetNumberOfRequests(), 3);
    assert_eq!(queue.GetRequestsOfParticularTick(9).len(), 0);
    assert_eq!(queue.GetRequestsOfParticularTick(10).len(), 2);
    queue.PurgeRequestsOlderThanTick(0);
    assert_eq!(queue.GetNumberOfRequests(), 3);
}

#[test]
fn request_ticks() {
    let create = Request::SpriteCreate(SpriteCreateRequest {
        tick: 7,
        sprite_uuid: 1,
        sprite_type: SpriteType::Engineer,
        position: TilePosition { x: 2, y: 3 },
    });
    assert_eq!(create.get_tick(), 7);
    assert_eq!(RequestQueue::GetTickOfParticularRequest(&move_at(42, 1)), 42);
}
