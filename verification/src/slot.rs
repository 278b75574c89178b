use vstd::prelude::*;

use crate::payload::Payload;
use crate::payload::opt_payload_eq;
use crate::payload::opt_payloads_equal;
use crate::position::Position;
use crate::position::coord_in_range;
use crate::position::position_in_range;

verus! {

/// The different kinds of slots.
///
/// Kind    | Meaning
/// --------|--------
/// CLASSIC | Slot with the ability to store a single payload
/// PIT     | Slot which is always empty; payloads dropped into it vanish
/// SPAWNER | Slot which manufactures payloads on demand and never stores one
#[derive(Copy, Clone, PartialEq, Eq, Structural, Debug)]
pub enum SlotKind {
    CLASSIC,
    PIT,
    SPAWNER,
}

/// A fixed location with a current payload and a desired target payload.
/// Carriers move payloads between slots until every slot holds what its
/// target asks for.
#[derive(Copy, Clone, Debug)]
pub struct Slot {
    pub pos: Position,
    pub current_payload: Option<Payload>,
    pub target_payload: Option<Payload>,
    pub taken_care_of: bool,
    pub kind: SlotKind,
}

impl Slot {
    /// A slot is well formed when its position is inside the arena bound and
    /// pits and spawners neither hold nor request a payload.
    pub open spec fn wf(self) -> bool {
        &&& position_in_range(self.pos)
        &&& (self.kind == SlotKind::PIT || self.kind == SlotKind::SPAWNER) ==> {
            &&& self.current_payload is None
            &&& self.target_payload is None
        }
    }

    /// Creates a new slot at the given milli-unit coordinates. A pit or a
    /// spawner must be created empty, with no target payload.
    pub fn new(
        x: i64,
        y: i64,
        current_payload: Option<Payload>,
        target_payload: Option<Payload>,
        kind: SlotKind,
    ) -> (s: Slot)
        requires
            coord_in_range(x as int),
            coord_in_range(y as int),
            (kind == SlotKind::PIT || kind == SlotKind::SPAWNER) ==> {
                &&& current_payload is None
                &&& target_payload is None
            },
        ensures
            s.wf(),
            s.pos.x == x,
            s.pos.y == y,
            s.current_payload == current_payload,
            s.target_payload == target_payload,
            !s.taken_care_of,
            s.kind == kind,
    {
        Slot { pos: Position::new(x, y), current_payload, target_payload, taken_care_of: false, kind }
    }

    /// Returns the slot position.
    pub fn get_position(&self) -> (p: &Position)
        ensures
            *p == self.pos,
    {
        &self.pos
    }

    pub open spec fn spec_position(self) -> Position {
        self.pos
    }

    /// Returns the current and the target payload.
    ///
    /// Index | Content
    /// ------|---------------
    /// 0     | current payload
    /// 1     | target payload
    pub fn get_payloads(&self) -> (r: [Option<Payload>; 2])
        ensures
            r[0] == self.current_payload,
            r[1] == self.target_payload,
    {
        [self.current_payload, self.target_payload]
    }

    /// Sets the target payload. Pits and spawners never request a payload.
    pub fn set_target_payload(&mut self, p: Option<Payload>)
        requires
            (old(self).kind == SlotKind::PIT || old(self).kind == SlotKind::SPAWNER) ==> (p is None),
        ensures
            *final(self) == (Slot { target_payload: p, ..*old(self) }),
            old(self).wf() ==> final(self).wf(),
    {
        self.target_payload = p;
    }

    /// Sets both the current and the target payload. Pits and spawners stay
    /// empty.
    pub fn set_payloads(&mut self, p: Option<Payload>)
        requires
            (old(self).kind == SlotKind::PIT || old(self).kind == SlotKind::SPAWNER) ==> (p is None),
        ensures
            *final(self) == (Slot { current_payload: p, target_payload: p, ..*old(self) }),
            old(self).wf() ==> final(self).wf(),
    {
        self.current_payload = p;
        self.target_payload = p;
    }

    /// Returns `true` if this slot is already addressed by some carrier.
    pub fn is_taken_care_of(&self) -> (r: bool)
        ensures
            r == self.taken_care_of,
    {
        self.taken_care_of
    }

    /// Returns `true` if the slot is a pit.
    pub fn is_pit(&self) -> (r: bool)
        ensures
            r == (self.kind == SlotKind::PIT),
    {
        self.kind == SlotKind::PIT
    }

    /// Returns `true` if the slot is a spawner.
    pub fn is_spawner(&self) -> (r: bool)
        ensures
            r == (self.kind == SlotKind::SPAWNER),
    {
        self.kind == SlotKind::SPAWNER
    }

    /// The slot's target payload equals `p`, comparing by cargo value only.
    pub open spec fn spec_accepts(self, p: Option<Payload>) -> bool {
        opt_payload_eq(self.target_payload, p)
    }

    pub(crate) fn accepts(&self, p: Option<Payload>) -> (r: bool)
        ensures
            r == self.spec_accepts(p),
    {
        opt_payloads_equal(&self.target_payload, &p)
    }
}

} // verus!
