use std::fmt;

use block_junk::cells::IVec3;
use block_junk::items::ItemSlot;
use block_junk::protocol::{
    manifest_hash, ready_payload, BoundExceeded, BoundedString, BoundedTextError, BoundedVec,
    Carrying, MaterialEntry, ModSetManifest, MovementMode, PlanKind, PlanState, RejectReason,
    WorldClock, DAY_LENGTH_MS,
};
use serde::de::{Deserialize, Deserializer, Error, SeqAccess, Visitor};

#[test]
fn pickup_many_clamps_and_respects_kind() {
    let log = ItemSlot(1);
    let stone = ItemSlot(2);
    let cap = 5;
    let mut c = Carrying::default();
    assert_eq!(c.pickup_many(log, 3, cap), 3);
    assert_eq!((c.item, c.count), (Some(log), 3));
    assert_eq!(c.pickup_many(log, 10, cap), 2);
    assert_eq!(c.count, cap);
    assert_eq!(c.pickup_many(log, 1, cap), 0);
    assert_eq!(c.count, cap);
    let mut c2 = Carrying::default();
    assert_eq!(c2.pickup_many(log, 2, cap), 2);
    assert_eq!(c2.pickup_many(stone, 2, cap), 0);
    assert_eq!((c2.item, c2.count), (Some(log), 2));
    assert_eq!(c2.pickup_many(log, 0, cap), 0);
}

/// A list as it comes off the wire.
struct WireList<const N: usize>(BoundedVec<u16, N>);

struct ListVisitor<const N: usize>;

impl<'de, const N: usize> Visitor<'de> for ListVisitor<N> {
    type Value = WireList<N>;

    fn expecting(&self, f: &mut fmt::Formatter<'_>) -> fmt::Result {
        f.write_str("a bounded list")
    }

    fn visit_seq<A: SeqAccess<'de>>(self, mut seq: A) -> Result<WireList<N>, A::Error> {
        let mut list = BoundedVec::begin(seq.size_hint())
            .map_err(|_| A::Error::custom("too many elements announced"))?;
        while let Some(v) = seq.next_element()? {
            list.accept(v).map_err(|_| A::Error::custom("too many elements"))?;
        }
        Ok(WireList(list))
    }
}

impl<'de, const N: usize> Deserialize<'de> for WireList<N> {
    fn deserialize<D: Deserializer<'de>>(d: D) -> Result<Self, D::Error> {
        d.deserialize_seq(ListVisitor)
    }
}

/// A text as it comes off the wire.
struct WireText<const N: usize>(BoundedString<N>);

struct TextVisitor<const N: usize>;

impl<'de, const N: usize> Visitor<'de> for TextVisitor<N> {
    type Value = WireText<N>;

    fn expecting(&self, f: &mut fmt::Formatter<'_>) -> fmt::Result {
        f.write_str("a bounded text")
    }

    fn visit_byte_buf<E: Error>(self, v: Vec<u8>) -> Result<WireText<N>, E> {
        match BoundedString::from_bytes(v) {
            Ok(s) => Ok(WireText(s)),
            Err(BoundedTextError::TooLong(_)) => Err(E::custom("text too long")),
            Err(BoundedTextError::NotUtf8) => Err(E::custom("text is not UTF-8")),
        }
    }
}

impl<'de, const N: usize> Deserialize<'de> for WireText<N> {
    fn deserialize<D: Deserializer<'de>>(d: D) -> Result<Self, D::Error> {
        d.deserialize_byte_buf(TextVisitor)
    }
}

fn decode_list<const N: usize>(bytes: &[u8]) -> Option<BoundedVec<u16, N>> {
    bincode::serde::decode_from_slice::<WireList<N>, _>(bytes, bincode::config::standard())
        .ok()
        .map(|(l, _)| l.0)
}

fn decode_text<const N: usize>(bytes: &[u8]) -> Option<BoundedString<N>> {
    bincode::serde::decode_from_slice::<WireText<N>, _>(bytes, bincode::config::standard())
        .ok()
        .map(|(t, _)| t.0)
}

#[test]
fn bounded_wire_values_reject_oversize_payloads() {
    let oversized = vec![7_u16; 9];
    let bytes = bincode::serde::encode_to_vec(&oversized, bincode::config::standard()).unwrap();
    assert!(decode_list::<8>(&bytes).is_none());
    let oversized = "x".repeat(129);
    let bytes = bincode::serde::encode_to_vec(&oversized, bincode::config::standard()).unwrap();
    assert!(decode_text::<128>(&bytes).is_none());
}

#[test]
fn bounded_vec_decode_never_accepts_more_than_limit() {
    for n in [0usize, 1, 63, 64, 65, 100, 255] {
        let values: Vec<u16> = (0..n).map(|i| (i * 257) as u16).collect();
        let bytes = bincode::serde::encode_to_vec(&values, bincode::config::standard()).unwrap();
        let decoded = decode_list::<64>(&bytes);
        assert_eq!(decoded.is_some(), n <= 64);
        if let Some(list) = decoded {
            assert_eq!(list.into_inner(), values);
        }
    }
}

#[test]
fn arbitrary_bytes_do_not_panic_bounded_decoders() {
    let mut x: u32 = 12345;
    for n in 0..200usize {
        let mut bytes = Vec::new();
        for _ in 0..n {
            x = x.wrapping_mul(1664525).wrapping_add(1013904223);
            bytes.push((x >> 24) as u8);
        }
        let _ = decode_list::<64>(&bytes);
        let _ = decode_text::<128>(&bytes);
    }
}

#[test]
fn bounded_text_counts_bytes_and_checks_encoding() {
    let exact = BoundedString::<4>::new("äö".to_owned()).unwrap();
    assert_eq!(exact.as_str(), "äö");
    assert_eq!(
        BoundedString::<3>::new("äö".to_owned()).err(),
        Some(BoundExceeded { limit: 3, actual: 4 })
    );
    assert_eq!(BoundedString::<4>::from_bytes(vec![104, 105]).unwrap().as_str(), "hi");
    assert_eq!(
        BoundedString::<4>::from_bytes(vec![0xff, 0xfe]).err(),
        Some(BoundedTextError::NotUtf8)
    );
    assert_eq!(
        BoundedString::<1>::from_bytes(vec![0xff, 0xfe]).err(),
        Some(BoundedTextError::TooLong(BoundExceeded { limit: 1, actual: 2 }))
    );
}

#[test]
fn bounded_lists_report_what_was_too_much() {
    assert_eq!(
        BoundedVec::<u8, 2>::new(vec![1, 2, 3]).err(),
        Some(BoundExceeded { limit: 2, actual: 3 })
    );
    let list = BoundedVec::<u8, 2>::new(vec![1, 2]).unwrap();
    assert_eq!(list.len(), 2);
    assert_eq!(*list.at(1), 2);
    let mut list = BoundedVec::<u8, 1>::begin(None).unwrap();
    assert!(list.accept(5).is_ok());
    assert!(list.accept(6).is_err());
    assert_eq!(list.into_inner(), vec![5]);
    assert!(BoundedVec::<u8, 1>::begin(Some(2)).is_err());
}

#[test]
fn hands_empty_into_what_they_held() {
    let mut c = Carrying::default();
    assert_eq!(c.drop_all(), None);
    assert!(c.pickup_one(ItemSlot(3), 2));
    assert!(c.pickup_one(ItemSlot(3), 2));
    assert!(!c.pickup_one(ItemSlot(3), 2));
    assert!(!c.can_accept(ItemSlot(4), 9));
    assert_eq!(c.drop_all(), Some((ItemSlot(3), 2)));
    assert_eq!(c, Carrying::default());
}

#[test]
fn empty_hands_fill_up_to_the_cap() {
    let mut c = Carrying { item: None, count: 5 };
    assert!(c.is_empty());
    assert_eq!(c.pickup_many(ItemSlot(3), 9, 4), 4);
    assert_eq!(c, Carrying { item: Some(ItemSlot(3)), count: 4 });
    let mut c = Carrying { item: Some(ItemSlot(2)), count: 0 };
    assert_eq!(c.pickup_many(ItemSlot(3), 1, u32::MAX), 1);
    assert_eq!(c, Carrying { item: Some(ItemSlot(3)), count: 1 });
}

#[test]
fn plan_material_bookkeeping() {
    let plan = PlanState::new(
        PlanKind::Remove,
        vec![
            MaterialEntry { item: ItemSlot(1), needed: 3, present: 1 },
            MaterialEntry { item: ItemSlot(2), needed: 1, present: 1 },
        ],
    );
    assert!(!plan.is_satisfied());
    assert_eq!(plan.remaining_for(ItemSlot(1)), 2);
    assert_eq!(plan.remaining_for(ItemSlot(2)), 0);
    assert_eq!(plan.remaining_for(ItemSlot(9)), 0);
    assert!(PlanState::new(PlanKind::Remove, vec![]).is_satisfied());
}

#[test]
fn ready_payload_layout() {
    let p = ready_payload(0x0807_0605_0403_0201, &[9; 32], &[10; 32], &[11; 32]);
    assert_eq!(p.len(), 131);
    assert_eq!(&p[..27], b"block-junk/client-ready/v1\0");
    assert_eq!(&p[27..35], &[1, 2, 3, 4, 5, 6, 7, 8]);
    assert_eq!(&p[35..67], &[9; 32]);
    assert_eq!(&p[67..99], &[10; 32]);
    assert_eq!(&p[99..], &[11; 32]);
}

#[test]
fn ready_payloads_differ_with_what_goes_in() {
    let a = ready_payload(1, &[0; 32], &[0; 32], &[0; 32]);
    assert_ne!(a, ready_payload(2, &[0; 32], &[0; 32], &[0; 32]));
    assert_ne!(a, ready_payload(1, &[1; 32], &[0; 32], &[0; 32]));
    assert_ne!(a, ready_payload(1, &[0; 32], &[1; 32], &[0; 32]));
    assert_ne!(a, ready_payload(1, &[0; 32], &[0; 32], &[1; 32]));
}

fn manifest() -> ModSetManifest {
    ModSetManifest {
        blocks: vec!["vanilla:empty".to_owned(), "vanilla:stone".to_owned()],
        items: vec!["vanilla:wood_log".to_owned()],
        recipes: vec![],
        npc_kinds: vec!["vanilla:wanderer".to_owned()],
        room_patterns: vec!["bedroom".to_owned()],
        defs_hash: 0xFEED,
    }
}

#[test]
fn manifest_digest_is_blake3_of_the_bincode_bytes() {
    let m = manifest();
    let bytes = bincode::serde::encode_to_vec(
        (&m.blocks, &m.items, &m.recipes, &m.npc_kinds, &m.room_patterns, m.defs_hash),
        bincode::config::standard(),
    )
    .unwrap();
    assert_eq!(manifest_hash(&m), *blake3::hash(&bytes).as_bytes());
}

#[test]
fn manifest_digest_sees_every_list() {
    let base = manifest_hash(&manifest());
    assert_eq!(base, manifest_hash(&manifest()));
    let mut m = manifest();
    m.blocks.swap(0, 1);
    assert_ne!(base, manifest_hash(&m));
    let mut m = manifest();
    m.items.clear();
    assert_ne!(base, manifest_hash(&m));
    let mut m = manifest();
    m.recipes.push("r".to_owned());
    assert_ne!(base, manifest_hash(&m));
    let mut m = manifest();
    m.npc_kinds[0].push('s');
    assert_ne!(base, manifest_hash(&m));
    let mut m = manifest();
    m.room_patterns.clear();
    assert_ne!(base, manifest_hash(&m));
    let mut m = manifest();
    m.defs_hash = 0;
    assert_ne!(base, manifest_hash(&m));
}

#[test]
fn clock_wraps_into_the_next_day() {
    let mut clock = WorldClock { day: 3, time_of_day: DAY_LENGTH_MS - 10 };
    assert!(clock.is_night());
    clock.advance(15);
    assert_eq!(clock, WorldClock { day: 4, time_of_day: 5 });
    let mut twice = WorldClock::default();
    twice.advance(400000);
    assert!(!twice.is_night());
    twice.advance(400000);
    let mut once = WorldClock::default();
    once.advance(800000);
    assert_eq!(twice, once);
    assert_eq!(once, WorldClock { day: 1, time_of_day: 200000 });
    assert!(WorldClock { day: 0, time_of_day: 149999 }.is_night());
    assert!(!WorldClock { day: 0, time_of_day: 150000 }.is_night());
    assert!(!WorldClock { day: 0, time_of_day: 449999 }.is_night());
    assert!(WorldClock { day: 0, time_of_day: 450000 }.is_night());
}

#[test]
fn movement_modes_toggle() {
    assert_eq!(MovementMode::Walk.toggled(), MovementMode::Fly);
    assert_eq!(MovementMode::Fly.toggled(), MovementMode::Walk);
    assert_ne!(IVec3::new(0, 0, 1), IVec3::new(0, 1, 0));
}

#[test]
fn rejections_have_words() {
    assert_eq!(RejectReason::OutOfReach.text(), "Too far away");
    assert_eq!(RejectReason::QueueFull.text(), "Station queue is full");
    assert_eq!(RejectReason::InventoryFull.text(), "Station inventory is full");
}
