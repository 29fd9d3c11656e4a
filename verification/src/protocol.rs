//! Messages between server and clients, and the values they carry.

use crate::blocks::{BlockSlot, Cardinal, WorkVerb};
use crate::cells::{min_of, IVec3};
use crate::items::ItemSlot;
use vstd::prelude::*;
use vstd::string::*;
use vstd::utf8::*;

verus! {

pub const CHUNK_SIZE: u32 = 32;

/// A chunk with a border of one cell on each side.
pub const CHUNK_PADDED: u32 = 34;

pub const CHUNK_PADDED_CELLS: usize = 39304;

pub const MAX_WIRE_ID_BYTES: usize = 128;

pub const MAX_BLOCK_FOOTPRINT_CELLS: usize = 256;

pub const MAX_APPLIED_BLOCK_CELLS: usize = 512;

pub const MAX_REASSEMBLED_MESSAGE_BYTES: usize = 1048576;

pub const MAX_SPATIAL_PAGE_BYTES: usize = 32768;

/// The most cells one plan edit may carry.
pub const PLAN_EDIT_BATCH_MAX: usize = 4096;

// ---------- bounded values ----------

/// A value from the wire is larger than its field allows.
#[derive(Clone, Copy, Debug, PartialEq, Eq, Structural)]
pub struct BoundExceeded {
    pub limit: usize,
    pub actual: usize,
}

/// Text of at most `N` bytes.
pub struct BoundedString<const N: usize>(String);

/// Why bytes are no bounded text.
#[derive(Clone, Copy, Debug, PartialEq, Eq, Structural)]
pub enum BoundedTextError {
    TooLong(BoundExceeded),
    NotUtf8,
}

/// Reads bytes as UTF-8 with `String::from_utf8`, which succeeds exactly on
/// valid UTF-8 and keeps the bytes.
#[verifier::external_body]
fn text_from_utf8(bytes: Vec<u8>) -> (r: Option<String>)
    ensures
        r is Some <==> valid_utf8(bytes@),
        r matches Some(s) ==> encode_utf8(s@) == bytes@,
{
    String::from_utf8(bytes).ok()
}

impl<const N: usize> View for BoundedString<N> {
    type V = Seq<char>;

    closed spec fn view(&self) -> Seq<char> {
        self.0@
    }
}

impl<const N: usize> BoundedString<N> {
    #[verifier::type_invariant]
    spec fn within_limit(self) -> bool {
        encode_utf8(self.0@).len() <= N
    }

    pub fn new(value: String) -> (r: Result<Self, BoundExceeded>)
        ensures
            match r {
                Ok(s) => s@ == value@ && encode_utf8(value@).len() <= N,
                Err(e) => encode_utf8(value@).len() > N && e.limit == N && e.actual
                    == encode_utf8(value@).len() as usize,
            },
    {
        let len: usize = value.as_str().as_bytes().len();
        if len > N {
            return Err(BoundExceeded { limit: N, actual: len });
        }
        Ok(BoundedString(value))
    }

    /// Reads a text from the wire. The length is checked before the content.
    pub fn from_bytes(value: Vec<u8>) -> (r: Result<Self, BoundedTextError>)
        ensures
            match r {
                Ok(s) => value@.len() <= N && valid_utf8(value@) && encode_utf8(s@) == value@,
                Err(BoundedTextError::TooLong(e)) => value@.len() > N && e == (BoundExceeded {
                    limit: N,
                    actual: value@.len() as usize,
                }),
                Err(BoundedTextError::NotUtf8) => value@.len() <= N && !valid_utf8(value@),
            },
    {
        if value.len() > N {
            return Err(
                BoundedTextError::TooLong(BoundExceeded { limit: N, actual: value.len() }),
            );
        }
        match text_from_utf8(value) {
            None => Err(BoundedTextError::NotUtf8),
            Some(s) => Ok(BoundedString(s)),
        }
    }

    pub fn as_str(&self) -> (r: &str)
        ensures
            r@ == self@,
            encode_utf8(self@).len() <= N,
    {
        proof {
            use_type_invariant(self);
        }
        self.0.as_str()
    }
}

/// At most `N` values.
pub struct BoundedVec<T, const N: usize>(Vec<T>);

impl<T, const N: usize> View for BoundedVec<T, N> {
    type V = Seq<T>;

    closed spec fn view(&self) -> Seq<T> {
        self.0@
    }
}

impl<T, const N: usize> BoundedVec<T, N> {
    #[verifier::type_invariant]
    spec fn within_limit(self) -> bool {
        self.0@.len() <= N
    }

    pub fn new(value: Vec<T>) -> (r: Result<Self, BoundExceeded>)
        ensures
            match r {
                Ok(b) => value@.len() <= N && b@ == value@,
                Err(e) => value@.len() > N && e == (BoundExceeded {
                    limit: N,
                    actual: value@.len() as usize,
                }),
            },
    {
        if value.len() > N {
            return Err(BoundExceeded { limit: N, actual: value.len() });
        }
        Ok(BoundedVec(value))
    }

    /// Starts reading a list whose sender announced `announced` values.
    pub fn begin(announced: Option<usize>) -> (r: Result<Self, BoundExceeded>)
        ensures
            match r {
                Ok(b) => (announced matches Some(n) ==> n <= N) && b@.len() == 0,
                Err(e) => announced matches Some(n) && n > N && e == (BoundExceeded {
                    limit: N,
                    actual: n,
                }),
            },
    {
        if let Some(n) = announced {
            if n > N {
                return Err(BoundExceeded { limit: N, actual: n });
            }
        }
        Ok(BoundedVec(Vec::new()))
    }

    /// Takes one more value, unless the list is full.
    pub fn accept(&mut self, value: T) -> (r: Result<(), BoundExceeded>)
        ensures
            match r {
                Ok(_) => old(self)@.len() < N && final(self)@ == old(self)@.push(value),
                Err(e) => old(self)@.len() == N && final(self)@ == old(self)@ && e == (
                BoundExceeded { limit: N, actual: min_of(N + 1, usize::MAX as int) as usize }),
            },
    {
        proof {
            use_type_invariant(&*self);
        }
        if self.0.len() == N {
            return Err(
                BoundExceeded {
                    limit: N,
                    actual: if N < usize::MAX {
                        N + 1
                    } else {
                        usize::MAX
                    },
                },
            );
        }
        let mut values: Vec<T> = Vec::new();
        std::mem::swap(&mut values, &mut self.0);
        values.push(value);
        self.0 = values;
        Ok(())
    }

    pub fn into_inner(self) -> (r: Vec<T>)
        ensures
            r@ == self@,
            r@.len() <= N,
    {
        proof {
            use_type_invariant(&self);
        }
        self.0
    }

    pub fn len(&self) -> (r: usize)
        ensures
            r == self@.len(),
            r <= N,
    {
        proof {
            use_type_invariant(self);
        }
        self.0.len()
    }

    pub fn at(&self, i: usize) -> (r: &T)
        requires
            i < self@.len(),
        ensures
            *r == self@[i as int],
    {
        &self.0[i]
    }
}

// ---------- rejections ----------

#[derive(Clone, Copy, Debug, PartialEq, Eq, Structural)]
pub enum RejectReason {
    OutOfReach,
    QueueFull,
    InventoryFull,
}

impl RejectReason {
    pub open spec fn wording(self) -> Seq<char> {
        match self {
            RejectReason::OutOfReach => "Too far away"@,
            RejectReason::QueueFull => "Station queue is full"@,
            RejectReason::InventoryFull => "Station inventory is full"@,
        }
    }

    /// What the player reads.
    pub fn text(self) -> (r: &'static str)
        ensures
            r@ == self.wording(),
    {
        match self {
            RejectReason::OutOfReach => "Too far away",
            RejectReason::QueueFull => "Station queue is full",
            RejectReason::InventoryFull => "Station inventory is full",
        }
    }
}

#[derive(Clone, Copy, Debug, PartialEq, Eq, Structural)]
pub struct ActionRejected {
    pub cell: IVec3,
    pub reason: RejectReason,
}

// ---------- rooms ----------

/// What clients learn about a matched room.
pub struct RoomSummary {
    pub room_id: u32,
    pub pattern: String,
    pub anchor: IVec3,
    pub bbox_min: IVec3,
    pub bbox_max: IVec3,
    pub floor_area: u32,
}

// ---------- bodies ----------

/// Where an avatar stands and looks: the bit patterns of its coordinates and
/// yaw.
#[derive(Clone, Copy, Debug, PartialEq, Eq, Structural)]
pub struct PoseBits {
    pub x: u32,
    pub y: u32,
    pub z: u32,
    pub yaw: u32,
}

#[derive(Clone, Copy, Debug, PartialEq, Eq, Structural)]
pub enum MovementMode {
    Walk,
    Fly,
}

impl MovementMode {
    /// The other mode.
    pub fn toggled(self) -> (r: MovementMode)
        ensures
            r == match self {
                MovementMode::Walk => MovementMode::Fly,
                MovementMode::Fly => MovementMode::Walk,
            },
    {
        match self {
            MovementMode::Walk => MovementMode::Fly,
            MovementMode::Fly => MovementMode::Walk,
        }
    }
}

// ---------- carrying ----------

/// A stack of one item kind in somebody's hands.
#[derive(Clone, Copy, Debug, PartialEq, Eq, Structural)]
pub struct Carrying {
    pub item: Option<ItemSlot>,
    pub count: u32,
}

#[derive(Clone, Copy, Debug, PartialEq, Eq, Structural)]
pub struct EquippedTool {
    pub item: Option<ItemSlot>,
}

impl Default for Carrying {
    fn default() -> (r: Carrying)
        ensures
            r.item is None,
            r.count == 0,
    {
        Carrying { item: None, count: 0 }
    }
}

impl Carrying {
    pub open spec fn empty_handed(self) -> bool {
        self.count == 0 || self.item is None
    }

    /// How many more of `item` fit under `cap`.
    pub open spec fn room_for(self, item: ItemSlot, cap: u32) -> int {
        if self.empty_handed() {
            cap as int
        } else if self.item == Some(item) && self.count < cap {
            cap - self.count
        } else {
            0
        }
    }

    pub fn is_empty(&self) -> (r: bool)
        ensures
            r == self.empty_handed(),
    {
        self.count == 0 || self.item.is_none()
    }

    pub fn can_accept(&self, item: ItemSlot, cap: u32) -> (r: bool)
        ensures
            r == (self.room_for(item, cap) > 0),
    {
        if self.is_empty() {
            return cap > 0;
        }
        match self.item {
            Some(i) => i == item && self.count < cap,
            None => false,
        }
    }

    /// How many items are in the hands: a count without an item is none.
    pub open spec fn held(self) -> int {
        if self.empty_handed() {
            0
        } else {
            self.count as int
        }
    }

    /// The hands after taking up to `want` of an item.
    pub open spec fn after_pickup(self, item: ItemSlot, want: int, cap: u32) -> Carrying {
        let taken = min_of(want, self.room_for(item, cap));
        if taken > 0 {
            Carrying { item: Some(item), count: (self.held() + taken) as u32 }
        } else {
            self
        }
    }

    /// The hands after all in them was dropped.
    pub open spec fn after_drop(self) -> Carrying {
        if self.item is Some {
            Carrying { item: None, count: 0 }
        } else {
            self
        }
    }

    /// Takes up to `want` of an item and returns how many were taken.
    pub fn pickup_many(&mut self, item: ItemSlot, want: u32, cap: u32) -> (taken: u32)
        ensures
            taken == min_of(want as int, old(self).room_for(item, cap)),
            *final(self) == old(self).after_pickup(item, want as int, cap),
    {
        let held: u32 = if self.is_empty() {
            0
        } else {
            self.count
        };
        let room: u32 = if self.is_empty() {
            cap
        } else {
            match self.item {
                Some(i) => if i == item && self.count < cap {
                    cap - self.count
                } else {
                    0
                },
                None => 0,
            }
        };
        let take: u32 = if want <= room {
            want
        } else {
            room
        };
        if take == 0 {
            return 0;
        }
        self.item = Some(item);
        self.count = held + take;
        take
    }

    /// Takes one of an item, if it fits.
    pub fn pickup_one(&mut self, item: ItemSlot, cap: u32) -> (taken: bool)
        ensures
            taken == (old(self).room_for(item, cap) > 0),
            *final(self) == old(self).after_pickup(item, 1, cap),
    {
        self.pickup_many(item, 1, cap) == 1
    }

    /// Empties the hands and returns what was in them.
    pub fn drop_all(&mut self) -> (r: Option<(ItemSlot, u32)>)
        ensures
            r is Some <==> !old(self).empty_handed(),
            r matches Some((item, count)) ==> old(self).item == Some(item) && count
                == old(self).count,
            *final(self) == old(self).after_drop(),
    {
        match self.item {
            None => None,
            Some(item) => {
                let count: u32 = self.count;
                self.item = None;
                self.count = 0;
                if count == 0 {
                    None
                } else {
                    Some((item, count))
                }
            },
        }
    }
}

/// Hands that take something hold no more than the cap and no second kind, and
/// they gain just what was taken.
pub proof fn law_pickup_respects_cap(before: Carrying, item: ItemSlot, want: u32, cap: u32)
    ensures
        ({
            let taken = min_of(want as int, before.room_for(item, cap));
            let after = before.after_pickup(item, want as int, cap);
            &&& after.held() == before.held() + taken
            &&& taken > 0 ==> after.held() <= cap && after.item == Some(item)
            &&& taken > 0 ==> before.empty_handed() || before.item == Some(item)
            &&& taken == 0 ==> after == before
        }),
{
}

/// Picking up and dropping leave no item behind with a count of zero.
pub proof fn law_hands_stay_sound(before: Carrying, item: ItemSlot, want: u32, cap: u32)
    requires
        before.count == 0 ==> before.item is None,
    ensures
        before.after_pickup(item, want as int, cap).count == 0 ==> before.after_pickup(
            item,
            want as int,
            cap,
        ).item is None,
        before.after_drop().count == 0 ==> before.after_drop().item is None,
        before.after_drop().empty_handed(),
{
}

// ---------- plans ----------

/// What is planned for a cell.
#[derive(Clone, Copy, Debug, PartialEq, Eq, Hash, Structural)]
pub enum PlanKind {
    Remove,
    Build { slot: BlockSlot, orientation: Cardinal },
}

impl PlanKind {
    pub open spec fn verb(self) -> WorkVerb {
        match self {
            PlanKind::Build { .. } => WorkVerb::Build,
            PlanKind::Remove => WorkVerb::Destroy,
        }
    }

    pub fn work_verb(&self) -> (r: WorkVerb)
        ensures
            r == self.verb(),
    {
        match self {
            PlanKind::Build { .. } => WorkVerb::Build,
            PlanKind::Remove => WorkVerb::Destroy,
        }
    }
}

/// How much of an item a plan needs and has.
#[derive(Clone, Copy, Debug, PartialEq, Eq, Structural)]
pub struct MaterialEntry {
    pub item: ItemSlot,
    pub needed: u32,
    pub present: u32,
}

/// A plan and what has been delivered to it.
pub struct PlanState {
    pub kind: PlanKind,
    pub materials: Vec<MaterialEntry>,
}

/// A plan as a value.
pub struct PlanView {
    pub kind: PlanKind,
    pub materials: Seq<MaterialEntry>,
}

impl View for PlanState {
    type V = PlanView;

    open spec fn view(&self) -> PlanView {
        PlanView { kind: self.kind, materials: self.materials@ }
    }
}

/// Everything the plan needs is there.
pub open spec fn satisfied(materials: Seq<MaterialEntry>) -> bool {
    forall|i: int|
        0 <= i < materials.len() ==> (#[trigger] materials[i]).present >= materials[i].needed
}

/// Position of the first entry for the item, from `i` on.
pub open spec fn entry_for(materials: Seq<MaterialEntry>, item: ItemSlot, i: int) -> Option<int>
    decreases materials.len() - i,
{
    if i >= materials.len() {
        None
    } else if materials[i].item == item {
        Some(i)
    } else {
        entry_for(materials, item, i + 1)
    }
}

/// What the entry still lacks.
pub open spec fn lacking(e: MaterialEntry) -> int {
    if e.needed > e.present {
        e.needed - e.present
    } else {
        0
    }
}

/// What the plan still lacks of an item.
pub open spec fn remaining(materials: Seq<MaterialEntry>, item: ItemSlot) -> int {
    match entry_for(materials, item, 0) {
        Some(k) => lacking(materials[k]),
        None => 0,
    }
}

pub proof fn lemma_entry_for(materials: Seq<MaterialEntry>, item: ItemSlot, i: int)
    requires
        0 <= i,
    ensures
        entry_for(materials, item, i) matches Some(k) ==> i <= k < materials.len()
            && materials[k].item == item,
    decreases materials.len() - i,
{
    if i < materials.len() && materials[i].item != item {
        lemma_entry_for(materials, item, i + 1);
    }
}

/// Finds the first entry for the item.
pub fn find_entry(materials: &Vec<MaterialEntry>, item: ItemSlot) -> (r: Option<usize>)
    ensures
        match r {
            Some(k) => entry_for(materials@, item, 0) == Some(k as int) && k < materials@.len(),
            None => entry_for(materials@, item, 0) is None,
        },
{
    let mut i: usize = 0;
    while i < materials.len()
        invariant
            i <= materials@.len(),
            entry_for(materials@, item, 0) == entry_for(materials@, item, i as int),
        decreases materials@.len() - i,
    {
        if materials[i].item == item {
            return Some(i);
        }
        i = i + 1;
    }
    None
}

pub fn copy_materials(materials: &Vec<MaterialEntry>) -> (r: Vec<MaterialEntry>)
    ensures
        r@ == materials@,
{
    let mut out: Vec<MaterialEntry> = Vec::new();
    let mut i: usize = 0;
    while i < materials.len()
        invariant
            i <= materials@.len(),
            out@ == materials@.take(i as int),
        decreases materials@.len() - i,
    {
        out.push(materials[i]);
        assert(out@ =~= materials@.take(i + 1));
        i = i + 1;
    }
    assert(out@ =~= materials@);
    out
}

impl PlanState {
    pub fn new(kind: PlanKind, materials: Vec<MaterialEntry>) -> (r: PlanState)
        ensures
            r@ == (PlanView { kind, materials: materials@ }),
    {
        PlanState { kind, materials }
    }

    pub fn copy(&self) -> (r: PlanState)
        ensures
            r@ == self@,
    {
        PlanState { kind: self.kind, materials: copy_materials(&self.materials) }
    }

    pub fn is_satisfied(&self) -> (r: bool)
        ensures
            r == satisfied(self.materials@),
    {
        let mut i: usize = 0;
        while i < self.materials.len()
            invariant
                i <= self.materials@.len(),
                forall|k: int|
                    0 <= k < i ==> (#[trigger] self.materials@[k]).present
                        >= self.materials@[k].needed,
            decreases self.materials@.len() - i,
        {
            if self.materials[i].present < self.materials[i].needed {
                return false;
            }
            i = i + 1;
        }
        true
    }

    pub fn remaining_for(&self, item: ItemSlot) -> (r: u32)
        ensures
            r == remaining(self.materials@, item),
    {
        match find_entry(&self.materials, item) {
            None => 0,
            Some(k) => {
                let e: MaterialEntry = self.materials[k];
                if e.needed > e.present {
                    e.needed - e.present
                } else {
                    0
                }
            },
        }
    }
}

/// Sets, changes or clears the plan of one cell.
pub struct PlanEdit {
    pub cell: IVec3,
    pub kind: Option<PlanKind>,
    pub materials: Vec<MaterialEntry>,
}

/// Sets or clears the plans of many cells alike.
pub struct PlanEditBatch {
    pub kind: Option<PlanKind>,
    pub cells: BoundedVec<IVec3, PLAN_EDIT_BATCH_MAX>,
    pub materials: Vec<MaterialEntry>,
}

// ---------- handshake ----------

/// Sets signatures over ready payloads apart from all other signatures:
/// the text "block-junk/client-ready/v1" and a zero byte.
pub const READY_DOMAIN: [u8; 27] = [
    98, 108, 111, 99, 107, 45, 106, 117, 110, 107, 47, 99, 108, 105, 101, 110, 116, 45, 114, 101,
    97, 100, 121, 47, 118, 49, 0,
];

/// The eight bytes of a number, least significant first.
pub open spec fn little_endian(x: u64) -> Seq<u8> {
    seq![
        (x % 0x100) as u8,
        (x / 0x100 % 0x100) as u8,
        (x / 0x1_0000 % 0x100) as u8,
        (x / 0x100_0000 % 0x100) as u8,
        (x / 0x1_0000_0000 % 0x100) as u8,
        (x / 0x100_0000_0000 % 0x100) as u8,
        (x / 0x1_0000_0000_0000 % 0x100) as u8,
        (x / 0x100_0000_0000_0000 % 0x100) as u8,
    ]
}

/// The bytes a client signs to show that it is ready.
pub open spec fn ready_bytes(
    protocol_id: u64,
    nonce: Seq<u8>,
    manifest: Seq<u8>,
    fingerprint: Seq<u8>,
) -> Seq<u8> {
    READY_DOMAIN@ + little_endian(protocol_id) + nonce + manifest + fingerprint
}

fn append_bytes(out: &mut Vec<u8>, bytes: &[u8])
    ensures
        final(out)@ == old(out)@ + bytes@,
{
    let mut i: usize = 0;
    while i < bytes.len()
        invariant
            i <= bytes@.len(),
            out@ == old(out)@ + bytes@.take(i as int),
        decreases bytes@.len() - i,
    {
        out.push(bytes[i]);
        assert(out@ =~= old(out)@ + bytes@.take(i + 1));
        i = i + 1;
    }
    assert(bytes@.take(bytes@.len() as int) =~= bytes@);
}

fn append_u64(out: &mut Vec<u8>, x: u64)
    ensures
        final(out)@ == old(out)@ + little_endian(x),
{
    out.push((x % 0x100) as u8);
    out.push((x / 0x100 % 0x100) as u8);
    out.push((x / 0x1_0000 % 0x100) as u8);
    out.push((x / 0x100_0000 % 0x100) as u8);
    out.push((x / 0x1_0000_0000 % 0x100) as u8);
    out.push((x / 0x100_0000_0000 % 0x100) as u8);
    out.push((x / 0x1_0000_0000_0000 % 0x100) as u8);
    out.push((x / 0x100_0000_0000_0000 % 0x100) as u8);
    assert(out@ =~= old(out)@ + little_endian(x));
}

pub fn ready_payload(
    protocol_id: u64,
    connection_nonce: &[u8; 32],
    manifest_hash: &[u8; 32],
    spatial_registry_fingerprint: &[u8; 32],
) -> (payload: Vec<u8>)
    ensures
        payload@ == ready_bytes(
            protocol_id,
            connection_nonce@,
            manifest_hash@,
            spatial_registry_fingerprint@,
        ),
        payload@.len() == 131,
{
    let mut payload: Vec<u8> = Vec::with_capacity(131);
    let domain: [u8; 27] = READY_DOMAIN;
    append_bytes(&mut payload, &domain);
    assert(payload@ =~= READY_DOMAIN@);
    append_u64(&mut payload, protocol_id);
    append_bytes(&mut payload, connection_nonce);
    append_bytes(&mut payload, manifest_hash);
    append_bytes(&mut payload, spatial_registry_fingerprint);
    payload
}

proof fn lemma_little_endian_injective(a: u64, b: u64)
    requires
        little_endian(a) == little_endian(b),
    ensures
        a == b,
{
    let s = little_endian(a);
    let t = little_endian(b);
    assert(s[0] == t[0] && s[1] == t[1] && s[2] == t[2] && s[3] == t[3]);
    assert(s[4] == t[4] && s[5] == t[5] && s[6] == t[6] && s[7] == t[7]);
    assert(a == b) by (bit_vector)
        requires
            a % 0x100u64 == b % 0x100u64,
            a / 0x100u64 % 0x100u64 == b / 0x100u64 % 0x100u64,
            a / 0x1_0000u64 % 0x100u64 == b / 0x1_0000u64 % 0x100u64,
            a / 0x100_0000u64 % 0x100u64 == b / 0x100_0000u64 % 0x100u64,
            a / 0x1_0000_0000u64 % 0x100u64 == b / 0x1_0000_0000u64 % 0x100u64,
            a / 0x100_0000_0000u64 % 0x100u64 == b / 0x100_0000_0000u64 % 0x100u64,
            a / 0x1_0000_0000_0000u64 % 0x100u64 == b / 0x1_0000_0000_0000u64 % 0x100u64,
            a / 0x100_0000_0000_0000u64 % 0x100u64 == b / 0x100_0000_0000_0000u64 % 0x100u64,
    ;
}

/// A ready payload fixes everything that went into it.
pub proof fn law_ready_payload_binds(
    id_a: u64,
    nonce_a: Seq<u8>,
    manifest_a: Seq<u8>,
    fingerprint_a: Seq<u8>,
    id_b: u64,
    nonce_b: Seq<u8>,
    manifest_b: Seq<u8>,
    fingerprint_b: Seq<u8>,
)
    requires
        nonce_a.len() == 32,
        nonce_b.len() == 32,
        manifest_a.len() == 32,
        manifest_b.len() == 32,
        fingerprint_a.len() == 32,
        fingerprint_b.len() == 32,
        ready_bytes(id_a, nonce_a, manifest_a, fingerprint_a) == ready_bytes(
            id_b,
            nonce_b,
            manifest_b,
            fingerprint_b,
        ),
    ensures
        id_a == id_b,
        nonce_a == nonce_b,
        manifest_a == manifest_b,
        fingerprint_a == fingerprint_b,
{
    let a = ready_bytes(id_a, nonce_a, manifest_a, fingerprint_a);
    let b = ready_bytes(id_b, nonce_b, manifest_b, fingerprint_b);
    let d = READY_DOMAIN@.len() as int;
    assert(a.subrange(d, d + 8) =~= little_endian(id_a));
    assert(b.subrange(d, d + 8) =~= little_endian(id_b));
    lemma_little_endian_injective(id_a, id_b);
    assert(a.subrange(d + 8, d + 40) =~= nonce_a);
    assert(b.subrange(d + 8, d + 40) =~= nonce_b);
    assert(a.subrange(d + 40, d + 72) =~= manifest_a);
    assert(b.subrange(d + 40, d + 72) =~= manifest_b);
    assert(a.subrange(d + 72, d + 104) =~= fingerprint_a);
    assert(b.subrange(d + 72, d + 104) =~= fingerprint_b);
}

/// What a server offers: the ids of everything its mods define.
pub struct ModSetManifest {
    pub blocks: Vec<String>,
    pub items: Vec<String>,
    pub recipes: Vec<String>,
    pub npc_kinds: Vec<String>,
    pub room_patterns: Vec<String>,
    pub defs_hash: u64,
}

/// The texts of a list.
pub open spec fn texts(list: Seq<String>) -> Seq<Seq<char>> {
    Seq::new(list.len(), |i: int| list[i]@)
}

/// What `bincode` makes, in its standard configuration, of five lists of texts
/// and a number.
pub uninterp spec fn bincode_of_lists(
    a: Seq<Seq<char>>,
    b: Seq<Seq<char>>,
    c: Seq<Seq<char>>,
    d: Seq<Seq<char>>,
    e: Seq<Seq<char>>,
    n: u64,
) -> Seq<u8>;

/// The BLAKE3 digest of some bytes.
pub uninterp spec fn blake3_digest(bytes: Seq<u8>) -> Seq<u8>;

/// Encodes with `bincode::serde::encode_to_vec` in the standard configuration.
/// The bytes depend on the texts and the number alone; how they are laid out
/// is left to `bincode`.
#[verifier::external_body]
fn encode_lists(
    a: &Vec<String>,
    b: &Vec<String>,
    c: &Vec<String>,
    d: &Vec<String>,
    e: &Vec<String>,
    n: u64,
) -> (r: Vec<u8>)
    ensures
        r@ == bincode_of_lists(texts(a@), texts(b@), texts(c@), texts(d@), texts(e@), n),
{
    bincode::serde::encode_to_vec((a, b, c, d, e, n), bincode::config::standard())
        .expect("text lists are serializable")
}

/// Hashes with `blake3::hash`. The digest depends on the bytes alone.
#[verifier::external_body]
fn hash_bytes(bytes: &Vec<u8>) -> (r: [u8; 32])
    ensures
        r@ == blake3_digest(bytes@),
{
    *blake3::hash(bytes).as_bytes()
}

/// The bytes that stand for a manifest.
pub open spec fn manifest_bytes(m: ModSetManifest) -> Seq<u8> {
    bincode_of_lists(
        texts(m.blocks@),
        texts(m.items@),
        texts(m.recipes@),
        texts(m.npc_kinds@),
        texts(m.room_patterns@),
        m.defs_hash,
    )
}

/// The digest that both sides of a connection compare.
pub fn manifest_hash(manifest: &ModSetManifest) -> (r: [u8; 32])
    ensures
        r@ == blake3_digest(manifest_bytes(*manifest)),
{
    let bytes: Vec<u8> = encode_lists(
        &manifest.blocks,
        &manifest.items,
        &manifest.recipes,
        &manifest.npc_kinds,
        &manifest.room_patterns,
        manifest.defs_hash,
    );
    hash_bytes(&bytes)
}

// ---------- clock ----------

/// Length of a day.
pub const DAY_LENGTH_MS: u32 = 600000;

/// The day and how far it has gone, in milliseconds.
#[derive(Clone, Copy, Debug, PartialEq, Eq, Structural)]
pub struct WorldClock {
    pub day: u32,
    pub time_of_day: u32,
}

impl Default for WorldClock {
    fn default() -> (r: WorldClock)
        ensures
            r == (WorldClock { day: 0, time_of_day: 0 }),
    {
        WorldClock { day: 0, time_of_day: 0 }
    }
}

impl WorldClock {
    /// Before a quarter or after three quarters of the day.
    pub open spec fn night(self) -> bool {
        4 * self.time_of_day < DAY_LENGTH_MS || 4 * self.time_of_day >= 3 * DAY_LENGTH_MS
    }

    pub fn is_night(self) -> (r: bool)
        ensures
            r == self.night(),
    {
        let t: u64 = self.time_of_day as u64;
        4 * t < DAY_LENGTH_MS as u64 || 4 * t >= 3 * DAY_LENGTH_MS as u64
    }

    /// The clock after some more time. The day counter wraps.
    pub open spec fn later(self, ms: int) -> WorldClock {
        WorldClock {
            day: ((self.day + (self.time_of_day + ms) / (DAY_LENGTH_MS as int)) % 0x1_0000_0000) as u32,
            time_of_day: ((self.time_of_day + ms) % (DAY_LENGTH_MS as int)) as u32,
        }
    }

    /// Lets time pass.
    pub fn advance(&mut self, dt_ms: u32)
        ensures
            *final(self) == old(self).later(dt_ms as int),
    {
        let total: u64 = self.time_of_day as u64 + dt_ms as u64;
        let days: u64 = total / DAY_LENGTH_MS as u64;
        self.day = ((self.day as u64 + days) % 0x1_0000_0000) as u32;
        self.time_of_day = (total % DAY_LENGTH_MS as u64) as u32;
    }
}

/// Letting time pass twice is letting it pass once for as long.
pub proof fn law_time_adds_up(clock: WorldClock, a: int, b: int)
    requires
        0 <= a,
        0 <= b,
    ensures
        clock.later(a).later(b) == clock.later(a + b),
{
    let d = DAY_LENGTH_MS as int;
    let w = 0x1_0000_0000int;
    let start = clock.time_of_day + a;
    let q = start / d;
    let r = start % d;
    let q2 = (r + b) / d;
    let r2 = (r + b) % d;
    assert(start + b == d * (q + q2) + r2) by (nonlinear_arith)
        requires
            start == d * q + r,
            r + b == d * q2 + r2,
    ;
    assert((start + b) / d == q + q2 && (start + b) % d == r2) by (nonlinear_arith)
        requires
            start + b == d * (q + q2) + r2,
            0 <= r2 < d,
    ;
    let x = clock.day + q;
    vstd::arithmetic::div_mod::lemma_add_mod_noop(x, q2, w);
    vstd::arithmetic::div_mod::lemma_add_mod_noop(x % w, q2, w);
    assert(x % w % w == x % w);
}

/// Empty hands take up to the cap of anything. Hands with something in them take
/// more of the same up to the cap, and nothing else: another kind, or a stack as
/// large as the cap, stays as it is.
pub proof fn law_hands_take_what_fits(before: Carrying, item: ItemSlot, want: u32, cap: u32)
    ensures
        ({
            let after = before.after_pickup(item, want as int, cap);
            let none = before.item is None || before.count == 0;
            &&& none && want > 0 && cap > 0 ==> after.item == Some(item) && after.count == (if want
                <= cap {
                want
            } else {
                cap
            })
            &&& none && (want == 0 || cap == 0) ==> after == before
            &&& !none && before.item != Some(item) ==> after == before
            &&& !none && before.count >= cap ==> after == before
            &&& !none && before.item == Some(item) && before.count + want <= cap ==> after.item
                == Some(item) && after.count == before.count + want
            &&& !none && before.item == Some(item) && before.count < cap < before.count + want
                ==> after.item == Some(item) && after.count == cap
        }),
{
}

/// Taking twice is taking once as much.
pub proof fn law_pickups_add_up(before: Carrying, item: ItemSlot, a: u32, b: u32, cap: u32)
    requires
        before.count == 0 <==> before.item is None,
    ensures
        before.after_pickup(item, a as int, cap).after_pickup(item, b as int, cap)
            == before.after_pickup(item, a + b, cap),
{
}

/// A ready payload begins with its domain, which no other signature begins
/// with, and holds one after the other the number in eight bytes that read back
/// as that number, the nonce, the digest of the manifest and the fingerprint.
pub proof fn law_ready_payload_layout(
    id: u64,
    nonce: Seq<u8>,
    manifest: Seq<u8>,
    fingerprint: Seq<u8>,
    k: int,
)
    requires
        nonce.len() == 32,
        manifest.len() == 32,
        fingerprint.len() == 32,
    ensures
        ({
            let bytes = ready_bytes(id, nonce, manifest, fingerprint);
            &&& bytes.len() == 131
            &&& 0 <= k < 27 ==> bytes[k] == READY_DOMAIN@[k]
            &&& bytes[27] + 0x100 * bytes[28] + 0x1_0000 * bytes[29] + 0x100_0000 * bytes[30]
                + 0x1_0000_0000 * bytes[31] + 0x100_0000_0000 * bytes[32] + 0x1_0000_0000_0000
                * bytes[33] + 0x100_0000_0000_0000 * bytes[34] == id
            &&& 0 <= k < 32 ==> bytes[35 + k] == nonce[k]
            &&& 0 <= k < 32 ==> bytes[67 + k] == manifest[k]
            &&& 0 <= k < 32 ==> bytes[99 + k] == fingerprint[k]
        }),
{
    let bytes = ready_bytes(id, nonce, manifest, fingerprint);
    let le = little_endian(id);
    assert(READY_DOMAIN@.len() == 27);
    assert(bytes[27] == le[0] && bytes[28] == le[1] && bytes[29] == le[2] && bytes[30] == le[3]);
    assert(bytes[31] == le[4] && bytes[32] == le[5] && bytes[33] == le[6] && bytes[34] == le[7]);
    assert(id % 0x100u64 + 0x100u64 * (id / 0x100u64 % 0x100u64) + 0x1_0000u64 * (id / 0x1_0000u64
        % 0x100u64) + 0x100_0000u64 * (id / 0x100_0000u64 % 0x100u64) + 0x1_0000_0000u64 * (id
        / 0x1_0000_0000u64 % 0x100u64) + 0x100_0000_0000u64 * (id / 0x100_0000_0000u64 % 0x100u64)
        + 0x1_0000_0000_0000u64 * (id / 0x1_0000_0000_0000u64 % 0x100u64)
        + 0x100_0000_0000_0000u64 * (id / 0x100_0000_0000_0000u64 % 0x100u64) == id) by (bit_vector);
}

/// A day has six hundred thousand milliseconds. Time never leaves the day, and
/// days and time together move on by just what has passed, until the counter of
/// the days is full and starts over.
pub proof fn law_days_have_their_length(clock: WorldClock, ms: int)
    requires
        0 <= ms,
    ensures
        clock.later(ms).time_of_day < 600000,
        clock.day * 600000 + clock.time_of_day + ms < 0x1_0000_0000 * 600000 ==> clock.later(ms).day
            * 600000 + clock.later(ms).time_of_day == clock.day * 600000 + clock.time_of_day + ms,
        clock.time_of_day + ms < 600000 ==> clock.later(ms).day == clock.day
            && clock.later(ms).time_of_day == clock.time_of_day + ms,
        clock.day == u32::MAX && clock.time_of_day + ms == 600000 ==> clock.later(ms) == (WorldClock {
            day: 0,
            time_of_day: 0,
        }),
{
    let total = clock.time_of_day + ms;
    let q = total / 600000;
    let r = total % 600000;
    assert(total == 600000 * q + r);
    if clock.day * 600000 + total < 0x1_0000_0000 * 600000 {
        assert(clock.day + q < 0x1_0000_0000);
        assert((clock.day + q) % 0x1_0000_0000 == clock.day + q) by (nonlinear_arith)
            requires
                0 <= clock.day + q < 0x1_0000_0000,
        ;
    }
}

/// It is night in the first and in the last quarter of the day, and day in
/// between.
pub proof fn law_nights_are_half_the_day(clock: WorldClock)
    requires
        clock.time_of_day < 600000,
    ensures
        clock.time_of_day < 150000 ==> clock.night(),
        150000 <= clock.time_of_day < 450000 ==> !clock.night(),
        450000 <= clock.time_of_day ==> clock.night(),
{
}

/// What a plan lacks of an item is what its first entry for that item needs and
/// does not have; a plan has all it needs exactly when no entry lacks anything.
pub proof fn law_plans_lack_what_is_missing(
    materials: Seq<MaterialEntry>,
    item: ItemSlot,
    k: int,
)
    ensures
        (0 <= k < materials.len() && materials[k].item == item && forall|j: int|
            0 <= j < k ==> (#[trigger] materials[j]).item != item) ==> remaining(materials, item)
            == (if materials[k].needed > materials[k].present {
            materials[k].needed - materials[k].present
        } else {
            0
        }),
        (forall|j: int| 0 <= j < materials.len() ==> (#[trigger] materials[j]).item != item)
            ==> remaining(materials, item) == 0,
        0 <= k < materials.len() && materials[k].present < materials[k].needed ==> !satisfied(
            materials,
        ),
        (forall|j: int|
            0 <= j < materials.len() ==> (#[trigger] materials[j]).needed <= materials[j].present)
            ==> satisfied(materials),
{
    lemma_entry_is_first(materials, item, 0, k);
}

proof fn lemma_entry_is_first(materials: Seq<MaterialEntry>, item: ItemSlot, i: int, k: int)
    requires
        0 <= i,
    ensures
        (i <= k < materials.len() && materials[k].item == item && forall|j: int|
            i <= j < k ==> (#[trigger] materials[j]).item != item) ==> entry_for(materials, item, i)
            == Some(k),
        (forall|j: int| i <= j < materials.len() ==> (#[trigger] materials[j]).item != item)
            ==> entry_for(materials, item, i) is None,
    decreases materials.len() - i,
{
    if i < materials.len() && materials[i].item != item {
        lemma_entry_is_first(materials, item, i + 1, k);
    }
}

} // verus!
