use block_junk::cells::IVec3;
use block_junk::protocol::{BoundedString, RoomSummary};
use block_junk::room_sync::{
    sync_room_summaries, world_to_chunk, ClientRooms, RoomDecodeError, RoomSummaryDataset,
    RoomSummaryWire,
};
use block_junk::rooms::detect::RoomEvent;
use block_junk::rooms::map::{RoomId, RoomMap};

fn summary(id: u32, lo: IVec3, hi: IVec3) -> RoomSummary {
    RoomSummary {
        room_id: id,
        pattern: "bedroom".to_owned(),
        anchor: lo,
        bbox_min: lo,
        bbox_max: hi,
        floor_area: 9,
    }
}

#[test]
fn chunks_round_towards_minus_infinity() {
    assert_eq!(world_to_chunk(IVec3::new(0, 31, 32)), IVec3::new(0, 0, 1));
    assert_eq!(world_to_chunk(IVec3::new(-1, -32, -33)), IVec3::new(-1, -1, -2));
}

#[test]
fn rooms_list_every_chunk_that_they_touch() {
    let s = summary(1, IVec3::new(-1, 0, 0), IVec3::new(0, 1, 40));
    assert_eq!(
        RoomSummaryDataset::chunks(&s),
        vec![
            IVec3::new(-1, 0, 0),
            IVec3::new(-1, 0, 1),
            IVec3::new(0, 0, 0),
            IVec3::new(0, 0, 1)
        ]
    );
}

#[test]
fn summaries_survive_the_wire() {
    let s = summary(7, IVec3::new(1, 2, 3), IVec3::new(4, 5, 6));
    let wire = RoomSummaryDataset::to_wire(&s);
    assert_eq!(wire.pattern.as_str(), "bedroom");
    match RoomSummaryDataset::from_wire(wire) {
        Ok((key, back)) => {
            assert_eq!(key, 7);
            assert_eq!(back.pattern, s.pattern);
            assert_eq!((back.bbox_min, back.bbox_max), (s.bbox_min, s.bbox_max));
            assert_eq!((back.anchor, back.floor_area), (s.anchor, s.floor_area));
        }
        Err(_) => panic!("a sound summary is accepted"),
    }
}

fn wire(lo: IVec3, hi: IVec3) -> RoomSummaryWire {
    RoomSummaryWire {
        room_id: 1,
        pattern: BoundedString::new("p".to_owned()).unwrap(),
        anchor: lo,
        bbox_min: lo,
        bbox_max: hi,
        floor_area: 1,
    }
}

#[test]
fn unsound_summaries_are_refused() {
    let zero = IVec3::new(0, 0, 0);
    let decode = |lo: IVec3, hi: IVec3| RoomSummaryDataset::from_wire(wire(lo, hi)).err();
    assert_eq!(decode(zero, IVec3::new(0, -1, 0)), Some(RoomDecodeError::InvalidSummary));
    assert_eq!(decode(zero, IVec3::new(2048, 0, 0)), Some(RoomDecodeError::TooManyChunks));
    assert_eq!(decode(zero, IVec3::new(2047, 0, 0)), None);
    assert_eq!(RoomDecodeError::InvalidSummary.text(), "invalid room summary");
    assert_eq!(RoomDecodeError::TooManyChunks.text(), "room spans too many chunks");
}

#[test]
fn the_smallest_room_around_a_cell_wins() {
    let mut rooms = ClientRooms::new();
    rooms.upsert(1, summary(1, IVec3::new(0, 0, 0), IVec3::new(20, 5, 20)));
    rooms.upsert(2, summary(2, IVec3::new(2, 0, 2), IVec3::new(6, 5, 6)));
    assert_eq!(rooms.room_at(IVec3::new(3, 1, 3)).map(|r| r.room_id), Some(2));
    assert_eq!(rooms.room_at(IVec3::new(10, 1, 3)).map(|r| r.room_id), Some(1));
    assert!(rooms.room_at(IVec3::new(50, 1, 3)).is_none());
    rooms.delete(2);
    assert_eq!(rooms.room_at(IVec3::new(3, 1, 3)).map(|r| r.room_id), Some(1));
}

#[test]
fn destroyed_rooms_leave_the_client() {
    let mut rooms = ClientRooms::new();
    rooms.upsert(4, summary(4, IVec3::new(0, 0, 0), IVec3::new(1, 1, 1)));
    sync_room_summaries(
        &vec![RoomEvent::Destroyed { room: RoomId(4) }],
        &vec![RoomId(9)],
        &RoomMap::default(),
        &mut rooms,
    );
    assert!(rooms.room_at(IVec3::new(0, 0, 0)).is_none());
}
