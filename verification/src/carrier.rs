use vstd::prelude::*;
use vstd::pervasive::VecAdditionalExecFns;
use vstd::arithmetic::div_mod::lemma_div_is_ordered;
use vstd::arithmetic::div_mod::lemma_div_multiples_vanish;
use vstd::arithmetic::div_mod::lemma_div_pos_is_pos;

use crate::payload::Payload;
use crate::position::COORD_LIMIT;
use crate::position::Position;
use crate::position::coord_in_range;
use crate::position::dist_sq_coords;
use crate::position::distance_squared;
use crate::position::position_in_range;
use crate::slot::Slot;
use crate::slot::SlotKind;
use crate::trig::PI_MRAD;
use crate::trig::TWO_PI_MRAD;
use crate::trig::bearing;
use crate::trig::cos_approx;
use crate::trig::sin_approx;

verus! {

/// One rotation step per tick, in milliradians.
pub const ANGLE_INCREMENT_MRAD: i64 = 150;

/// A carrier faces its target once the bearing is within this tolerance:
/// one rotation increment with a fifth of slack.
pub const ANGLE_TOLERANCE_MRAD: i64 = 180;

/// Default ability to accelerate, in milli-units per tick per tick.
pub const DEFAULT_ACCELERATION: i64 = 470;

/// Default speed cap, in milli-units per tick.
pub const DEFAULT_MAX_SPEED: i64 = 6000;

/// Upper bound on any speed or acceleration magnitude the library accepts,
/// chosen so that every kinematic computation stays inside i64.
pub const KINEMATIC_LIMIT: i64 = 1_000_000_000;

/// States that apply to carriers.
///
/// State            | Meaning
/// -----------------|--------
/// IDLE             | Not doing anything, except for looking for a new task
/// TARGETING        | Rotating to face the current target
/// MOVING           | Moving to target
/// PICKINGUP        | Picking up the payload
/// LOOKINGFORTARGET | Looking for target for the payload
/// NOTARGET         | Has payload that currently fits nowhere; it will be parked in the closest free slot
/// DELIVERING       | Moving payload to the target
/// PUTTINGDOWN      | Putting down the payload
#[derive(Copy, Clone, PartialEq, Eq, Structural, Debug)]
pub enum State {
    IDLE,
    TARGETING(usize),
    MOVING(usize),
    PICKINGUP(usize),
    LOOKINGFORTARGET,
    NOTARGET,
    DELIVERING(usize),
    PUTTINGDOWN(usize),
}

impl State {
    /// Returns whether this is the idle state.
    pub fn is_idle(&self) -> (r: bool)
        ensures
            r == (*self == State::IDLE),
    {
        match *self {
            State::IDLE => true,
            _ => false,
        }
    }
}

/// The two ways a carrier can spin.
#[derive(Copy, Clone, PartialEq, Eq, Structural, Debug)]
pub enum RotationDirection {
    CLOCKWISE,
    COUNTERCLOCKWISE,
}

/// Relies on rand::random_ratio(1, 2): a fair coin toss deciding the
/// cosmetic idle spin direction. Nothing is promised beyond the result
/// being one of the two directions.
#[verifier::external_body]
fn random_rotation_direction() -> (r: RotationDirection)
    ensures
        r == RotationDirection::CLOCKWISE || r == RotationDirection::COUNTERCLOCKWISE,
{
    if rand::random_ratio(1, 2) {
        RotationDirection::CLOCKWISE
    } else {
        RotationDirection::COUNTERCLOCKWISE
    }
}

/// The angle one clockwise step further, wrapped into a full turn.
pub open spec fn next_angle_cw(a: int) -> int {
    if a + ANGLE_INCREMENT_MRAD > TWO_PI_MRAD {
        a + ANGLE_INCREMENT_MRAD - TWO_PI_MRAD
    } else {
        a + ANGLE_INCREMENT_MRAD
    }
}

/// The angle one counterclockwise step further, wrapped into a full turn.
pub open spec fn next_angle_ccw(a: int) -> int {
    if a - ANGLE_INCREMENT_MRAD < 0 {
        a - ANGLE_INCREMENT_MRAD + TWO_PI_MRAD
    } else {
        a - ANGLE_INCREMENT_MRAD
    }
}

/// Which way to spin from heading `src` toward bearing `trg`: along the
/// shorter arc, clockwise when the arcs tie.
pub open spec fn rotation_direction_for(src: int, trg: int) -> RotationDirection {
    let lifted = if trg < src { trg + TWO_PI_MRAD } else { trg };
    if lifted - src > PI_MRAD {
        RotationDirection::COUNTERCLOCKWISE
    } else {
        RotationDirection::CLOCKWISE
    }
}

/// How many ticks braking at `a` from speed `s` takes until the speed would
/// drop below zero.
pub open spec fn braking_ticks(s: int, a: int) -> int
    decreases s + a when a >= 1 && s >= 0
{
    if s - a < 0 {
        1
    } else {
        1 + braking_ticks(s - a, a)
    }
}

/// The distance covered while braking at `a` from speed `s` down to a stop:
/// the sum `s + (s - a) + (s - 2a) + ...` over all nonnegative terms.
pub open spec fn braking_distance(s: int, a: int) -> int
    decreases s + a when a >= 1
{
    if s < 0 {
        0
    } else {
        s + braking_distance(s - a, a)
    }
}

/// The braking countdown runs for at least one and at most `s + 1` ticks.
pub proof fn lemma_braking_ticks_bound(s: int, a: int)
    requires
        a >= 1,
        s >= 0,
    ensures
        1 <= braking_ticks(s, a) <= s + 1,
    decreases s,
{
    if s - a >= 0 {
        lemma_braking_ticks_bound(s - a, a);
    }
}

/// The braking distance is nonnegative and at most `s * (s + 1)`.
pub proof fn lemma_braking_distance_bounds(s: int, a: int)
    requires
        a >= 1,
        s >= 0,
    ensures
        0 <= braking_distance(s, a) <= s * (s + 1),
    decreases s,
{
    if s - a < 0 {
        assert(braking_distance(s - a, a) == 0);
        assert(s <= s * (s + 1)) by (nonlinear_arith)
            requires s >= 0;
    } else {
        lemma_braking_distance_bounds(s - a, a);
        assert((s - a) * (s - a + 1) <= (s - 1) * s) by (nonlinear_arith)
            requires 0 <= s - a <= s - 1;
        assert(s + (s - 1) * s <= s * (s + 1)) by (nonlinear_arith)
            requires s >= 0;
    }
}

/// The speed one tick after applying the effective acceleration `e`,
/// clamped into `[0, m]`.
pub open spec fn next_speed(s: int, e: int, m: int) -> int {
    if s + e > m {
        m
    } else if s + e < 0 {
        0
    } else {
        s + e
    }
}

/// Arrival convergence, the speed side: while a carrier is braking, its
/// speed strictly drops every tick until the arrival signal fires, and at
/// the arrival signal the speed is exactly zero. Together with
/// `lemma_braking_ticks_bound`, a braking carrier therefore stops within
/// `speed + 1` ticks.
pub proof fn lemma_braking_converges(s: int, e: int, m: int)
    requires
        e <= -1,
        0 <= s,
        0 <= m,
    ensures
        s + e < 0 ==> next_speed(s, e, m) == 0,
        s + e >= 0 ==> next_speed(s, e, m) < s,
{
}

/// One tick's travel along one axis: the speed scaled by a sine or cosine
/// value, rounded toward zero.
pub open spec fn scaled_step(speed: int, trig: int) -> int {
    if trig >= 0 {
        (speed * trig) / 1000
    } else {
        -((speed * (-trig)) / 1000)
    }
}

/// Coordinates are kept inside the arena bound.
pub open spec fn clamp_coord(v: int) -> int {
    if v > COORD_LIMIT {
        COORD_LIMIT as int
    } else if v < -COORD_LIMIT {
        -(COORD_LIMIT as int)
    } else {
        v
    }
}

/// The slot the carrier is presently bound to: the one it is rotating
/// toward, moving to, picking up from or putting down at.
pub open spec fn movement_target(c: Carrier) -> Option<usize> {
    match c.state {
        State::TARGETING(t) => Some(t),
        State::MOVING(t) => Some(t),
        State::PICKINGUP(t) => Some(t),
        State::PUTTINGDOWN(t) => Some(t),
        _ => None,
    }
}

/// The slot a tick may modify: the one being picked from, or the one being
/// put into when the payload is not being dropped into a pit.
pub open spec fn tick_touched_slot(c: Carrier) -> Option<usize> {
    match c.state {
        State::PICKINGUP(t) => Some(t),
        State::PUTTINGDOWN(t) => if c.carrying_to_pit {
            None
        } else {
            Some(t)
        },
        _ => None,
    }
}

/// One motion step of a single carrier, as a function of the carrier, the
/// slots, and the idle spin direction drawn when a delivery completes
/// (the one random ingredient; it is ignored in every other state). The
/// new carrier and the new slots are exactly what `Carrier::tick`
/// produces.
pub open spec fn motion_step(c: Carrier, slots: Seq<Slot>, spin: Option<RotationDirection>)
    -> (Carrier, Seq<Slot>)
{
    match c.state {
        State::IDLE => (drifted(c), slots),
        State::NOTARGET => (drifted(c), slots),
        State::TARGETING(t) => {
            let b = bearing(slots[t as int].pos.x - c.pos.x, slots[t as int].pos.y - c.pos.y);
            let diff = if b >= c.angle { b - c.angle } else { c.angle - b };
            if diff > ANGLE_TOLERANCE_MRAD {
                let dir = match c.rotation_direction {
                    Some(d) => d,
                    None => rotation_direction_for(c.angle as int, b),
                };
                let a2 = if dir == RotationDirection::CLOCKWISE {
                    next_angle_cw(c.angle as int)
                } else {
                    next_angle_ccw(c.angle as int)
                };
                (Carrier { angle: a2 as i64, rotation_direction: Some(dir), ..c }, slots)
            } else {
                (Carrier { angle: b as i64, state: State::MOVING(t), ..c }, slots)
            }
        }
        State::MOVING(t) => {
            let tx = slots[t as int].pos.x as int;
            let ty = slots[t as int].pos.y as int;
            let eff = if should_brake(c, tx, ty) {
                -(c.effective_acceleration as int)
            } else {
                c.effective_acceleration as int
            };
            let sp = next_speed(c.speed as int, eff, c.max_speed as int);
            let pos2 = Position {
                x: clamp_coord(c.pos.x + scaled_step(sp, cos_approx(c.angle as int))) as i64,
                y: clamp_coord(c.pos.y + scaled_step(sp, sin_approx(c.angle as int))) as i64,
            };
            if c.speed + eff < 0 {
                (Carrier {
                    pos: pos2,
                    speed: 0,
                    rotation_direction: None,
                    effective_acceleration: c.acceleration,
                    state: if c.payload is Some {
                        State::PUTTINGDOWN(t)
                    } else {
                        State::PICKINGUP(t)
                    },
                    ..c
                }, slots)
            } else {
                (Carrier {
                    pos: pos2,
                    speed: sp as i64,
                    effective_acceleration: eff as i64,
                    ..c
                }, slots)
            }
        }
        State::PICKINGUP(t) => {
            let cargo = if c.going_to_spawner.0 {
                c.going_to_spawner.1->0
            } else {
                slots[t as int].current_payload->0.cargo
            };
            (
                Carrier {
                    payload: Some(Payload { cargo, taken_from: Some(t) }),
                    state: State::LOOKINGFORTARGET,
                    ..c
                },
                slots.update(t as int, Slot {
                    current_payload: None,
                    taken_care_of: false,
                    ..slots[t as int]
                }),
            )
        }
        State::PUTTINGDOWN(t) => {
            let c2 = Carrier {
                payload: None,
                reserved_target: None,
                state: State::IDLE,
                idle_rotation_direction: spin,
                ..c
            };
            if c.carrying_to_pit {
                (c2, slots)
            } else {
                (c2, slots.update(t as int, Slot {
                    current_payload: c.payload,
                    taken_care_of: false,
                    ..slots[t as int]
                }))
            }
        }
        _ => (c, slots),
    }
}

/// An idle or searching carrier's cosmetic drift: one motion step toward
/// the fixed idle point plus one idle rotation step.
pub open spec fn drifted(c: Carrier) -> Carrier {
    let eff = if should_brake(c, 5000, 5000) {
        -(c.effective_acceleration as int)
    } else {
        c.effective_acceleration as int
    };
    let sp = next_speed(c.speed as int, eff, c.max_speed as int);
    let a2 = match c.idle_rotation_direction {
        Some(RotationDirection::CLOCKWISE) => next_angle_cw(c.angle as int),
        Some(RotationDirection::COUNTERCLOCKWISE) => next_angle_ccw(c.angle as int),
        None => c.angle as int,
    };
    Carrier {
        pos: Position {
            x: clamp_coord(c.pos.x + scaled_step(sp, cos_approx(c.angle as int))) as i64,
            y: clamp_coord(c.pos.y + scaled_step(sp, sin_approx(c.angle as int))) as i64,
        },
        speed: sp as i64,
        effective_acceleration: eff as i64,
        angle: a2 as i64,
        ..c
    }
}

/// The motion pass folded left to right over the first `k` carriers,
/// given the idle spin each delivery would draw.
pub open spec fn motion_fold(
    carriers: Seq<Carrier>,
    slots: Seq<Slot>,
    spins: Seq<Option<RotationDirection>>,
    k: int,
) -> (Seq<Carrier>, Seq<Slot>)
    decreases k when k >= 0
{
    if k <= 0 {
        (carriers, slots)
    } else {
        let prev = motion_fold(carriers, slots, spins, k - 1);
        let step = motion_step(prev.0[k - 1], prev.1, spins[k - 1]);
        (prev.0.update(k - 1, step.0), step.1)
    }
}

/// The motion fold reads only the first `k` spin draws: appending more
/// draws does not change it.
pub proof fn lemma_motion_fold_prefix(
    carriers: Seq<Carrier>,
    slots: Seq<Slot>,
    spins1: Seq<Option<RotationDirection>>,
    spins2: Seq<Option<RotationDirection>>,
    k: int,
)
    requires
        0 <= k,
        forall|x: int| 0 <= x < k ==> spins1[x] == spins2[x],
    ensures
        motion_fold(carriers, slots, spins1, k) == motion_fold(carriers, slots, spins2, k),
    decreases k,
{
    if k > 0 {
        lemma_motion_fold_prefix(carriers, slots, spins1, spins2, k - 1);
    }
}

/// The carrier begins to brake when the distance its braking countdown
/// would still cover exceeds the straight-line distance to the target
/// (compared by their squares).
pub open spec fn should_brake(c: Carrier, tx: int, ty: int) -> bool {
    let d = braking_distance(c.speed as int, c.acceleration as int);
    c.effective_acceleration > 0 && d * d > dist_sq_coords(c.pos.x as int, c.pos.y as int, tx, ty)
}

/// The mobile agent: it moves from slot to slot and transfers payloads so
/// that every slot ends up holding its target payload.
#[derive(Copy, Clone)]
pub struct Carrier {
    pub pos: Position,
    pub angle: i64,
    pub acceleration: i64,
    pub effective_acceleration: i64,
    pub max_speed: i64,
    pub speed: i64,
    pub state: State,
    pub payload: Option<Payload>,
    pub reserved_target: Option<usize>,
    pub rotation_direction: Option<RotationDirection>,
    pub idle_rotation_direction: Option<RotationDirection>,
    pub temporary_target: bool,
    pub carrying_to_pit: bool,
    pub going_to_spawner: (bool, Option<u64>),
}

impl Carrier {
    /// The kinematic fields stay inside the ranges every motion computation
    /// relies on.
    pub open spec fn wf_kinematics(self) -> bool {
        &&& 1 <= self.acceleration <= KINEMATIC_LIMIT
        &&& -KINEMATIC_LIMIT <= self.effective_acceleration <= KINEMATIC_LIMIT
        &&& 0 <= self.speed <= KINEMATIC_LIMIT
        &&& 0 <= self.max_speed <= KINEMATIC_LIMIT
        &&& 0 <= self.angle <= TWO_PI_MRAD
        &&& position_in_range(self.pos)
    }

    /// Creates a new carrier at the given milli-unit coordinates.
    pub fn new(x: i64, y: i64) -> (c: Carrier)
        requires
            coord_in_range(x as int),
            coord_in_range(y as int),
        ensures
            c.wf_kinematics(),
            c.pos.x == x,
            c.pos.y == y,
            c.angle == 0,
            c.acceleration == DEFAULT_ACCELERATION,
            c.effective_acceleration == 0,
            c.max_speed == DEFAULT_MAX_SPEED,
            c.speed == 0,
            c.state == State::IDLE,
            c.payload is None,
            c.reserved_target is None,
            c.rotation_direction is None,
            c.idle_rotation_direction is Some,
            !c.temporary_target,
            !c.carrying_to_pit,
            !c.going_to_spawner.0,
            c.going_to_spawner.1 is None,
    {
        Carrier {
            pos: Position::new(x, y),
            angle: 0,
            acceleration: DEFAULT_ACCELERATION,
            effective_acceleration: 0,
            max_speed: DEFAULT_MAX_SPEED,
            speed: 0,
            state: State::IDLE,
            payload: None,
            reserved_target: None,
            rotation_direction: None,
            idle_rotation_direction: Some(random_rotation_direction()),
            temporary_target: false,
            carrying_to_pit: false,
            going_to_spawner: (false, None),
        }
    }

    /// Returns the payload the carrier is holding, if any.
    pub fn get_payload(&self) -> (r: Option<Payload>)
        ensures
            r == self.payload,
    {
        self.payload
    }

    /// The slot the carrier is heading to while rotating or moving.
    pub open spec fn spec_get_target(self) -> Option<usize> {
        match self.state {
            State::TARGETING(t) => Some(t),
            State::MOVING(t) => Some(t),
            _ => None,
        }
    }

    /// Returns the index of the slot the carrier is going to, if it is
    /// rotating toward or moving to one.
    pub fn get_target(&self) -> (r: Option<usize>)
        ensures
            r == self.spec_get_target(),
    {
        match self.state {
            State::TARGETING(target_index) => Some(target_index),
            State::MOVING(target_index) => Some(target_index),
            _ => None,
        }
    }

    /// Returns the slot reserved as the destination for the cargo the
    /// carrier is fetching or transferring.
    pub fn get_reserved_target(&self) -> (r: Option<usize>)
        ensures
            r == self.reserved_target,
    {
        self.reserved_target
    }

    /// Returns the carrier position.
    pub fn get_position(&self) -> (p: &Position)
        ensures
            *p == self.pos,
    {
        &self.pos
    }

    /// Returns the heading in milliradians.
    ///
    /// Direction | Angle
    /// ----------|--------
    /// Right     | 0
    /// Down      | HALF_PI_MRAD
    /// Left      | PI_MRAD
    /// Up        | PI_MRAD + HALF_PI_MRAD
    pub fn get_angle(&self) -> (r: i64)
        ensures
            r == self.angle,
    {
        self.angle
    }

    /// Returns the carrier state.
    pub fn get_state(&self) -> (r: State)
        ensures
            r == self.state,
    {
        self.state
    }

    /// Sets the carrier's ability to accelerate, in milli-units per tick
    /// per tick. The current movement keeps its already effective value.
    pub fn set_acceleration(&mut self, acceleration: i64)
        requires
            1 <= acceleration <= KINEMATIC_LIMIT,
        ensures
            *final(self) == (Carrier { acceleration, ..*old(self) }),
    {
        self.acceleration = acceleration;
    }

    /// Returns the carrier's ability to accelerate.
    pub fn get_acceleration(&self) -> (r: i64)
        ensures
            r == self.acceleration,
    {
        self.acceleration
    }

    /// Sets the maximum speed, in milli-units per tick.
    pub fn set_max_speed(&mut self, max_speed: i64)
        requires
            0 <= max_speed <= KINEMATIC_LIMIT,
        ensures
            *final(self) == (Carrier { max_speed, ..*old(self) }),
    {
        self.max_speed = max_speed;
    }

    /// Returns the maximum speed.
    pub fn get_max_speed(&self) -> (r: i64)
        ensures
            r == self.max_speed,
    {
        self.max_speed
    }

    /// Returns the spin direction chosen for the current targeting episode.
    pub fn get_rotation_direction(&self) -> (r: Option<RotationDirection>)
        ensures
            r == self.rotation_direction,
    {
        self.rotation_direction
    }

    /// Points the carrier at a new target slot: the slot is marked as taken
    /// care of, the movement restarts from standstill, and the transfer
    /// flags are replaced. Sending a carrier without a payload to a pit is
    /// a caller error, excluded here.
    pub(crate) fn target_slot(
        &mut self,
        target: usize,
        slot: &mut Slot,
        is_temporary: bool,
        to_pit: bool,
        to_spawner: (bool, Option<u64>),
    )
        requires
            old(slot).kind == SlotKind::PIT ==> (old(self).payload is Some),
        ensures
            *final(self) == (Carrier {
                state: State::TARGETING(target),
                speed: 0,
                effective_acceleration: old(self).acceleration,
                rotation_direction: None,
                temporary_target: is_temporary,
                carrying_to_pit: to_pit,
                going_to_spawner: to_spawner,
                ..*old(self)
            }),
            *final(slot) == (Slot { taken_care_of: true, ..*old(slot) }),
    {
        self.state = State::TARGETING(target);
        self.speed = 0;
        self.effective_acceleration = self.acceleration;
        slot.taken_care_of = true;
        self.rotation_direction = None;
        self.temporary_target = is_temporary;
        self.carrying_to_pit = to_pit;
        self.going_to_spawner = to_spawner;
    }

    /// The bearing from the carrier to the given point, in milliradians in
    /// `[0, TWO_PI_MRAD)`.
    pub fn calculate_angle_to_point(&self, tx: i64, ty: i64) -> (r: i64)
        requires
            position_in_range(self.pos),
            coord_in_range(tx as int),
            coord_in_range(ty as int),
        ensures
            r == bearing(tx - self.pos.x, ty - self.pos.y),
            0 <= r < TWO_PI_MRAD,
    {
        crate::trig::bearing_mrad(tx - self.pos.x, ty - self.pos.y)
    }

    /// One rotation step along the direction chosen for this targeting
    /// episode; no step when none is chosen yet.
    fn rotate(&mut self)
        requires
            0 <= old(self).angle <= TWO_PI_MRAD,
        ensures
            *final(self) == (Carrier { angle: final(self).angle, ..*old(self) }),
            final(self).angle == match old(self).rotation_direction {
                Some(RotationDirection::CLOCKWISE) => next_angle_cw(old(self).angle as int),
                Some(RotationDirection::COUNTERCLOCKWISE) => next_angle_ccw(old(self).angle as int),
                None => old(self).angle as int,
            },
            0 <= final(self).angle <= TWO_PI_MRAD,
    {
        match self.rotation_direction {
            Some(RotationDirection::CLOCKWISE) => self.turn_clockwise(),
            Some(RotationDirection::COUNTERCLOCKWISE) => self.turn_counterclockwise(),
            None => {}
        }
    }

    /// One cosmetic rotation step along the idle spin direction.
    fn idle_rotate(&mut self)
        requires
            0 <= old(self).angle <= TWO_PI_MRAD,
        ensures
            *final(self) == (Carrier { angle: final(self).angle, ..*old(self) }),
            final(self).angle == match old(self).idle_rotation_direction {
                Some(RotationDirection::CLOCKWISE) => next_angle_cw(old(self).angle as int),
                Some(RotationDirection::COUNTERCLOCKWISE) => next_angle_ccw(old(self).angle as int),
                None => old(self).angle as int,
            },
            0 <= final(self).angle <= TWO_PI_MRAD,
    {
        match self.idle_rotation_direction {
            Some(RotationDirection::CLOCKWISE) => self.turn_clockwise(),
            Some(RotationDirection::COUNTERCLOCKWISE) => self.turn_counterclockwise(),
            None => {}
        }
    }

    fn turn_clockwise(&mut self)
        requires
            0 <= old(self).angle <= TWO_PI_MRAD,
        ensures
            *final(self) == (Carrier { angle: final(self).angle, ..*old(self) }),
            final(self).angle == next_angle_cw(old(self).angle as int),
            0 <= final(self).angle <= TWO_PI_MRAD,
    {
        self.angle = self.angle + ANGLE_INCREMENT_MRAD;
        if self.angle > TWO_PI_MRAD {
            self.angle = self.angle - TWO_PI_MRAD;
        }
    }

    fn turn_counterclockwise(&mut self)
        requires
            0 <= old(self).angle <= TWO_PI_MRAD,
        ensures
            *final(self) == (Carrier { angle: final(self).angle, ..*old(self) }),
            final(self).angle == next_angle_ccw(old(self).angle as int),
            0 <= final(self).angle <= TWO_PI_MRAD,
    {
        self.angle = self.angle - ANGLE_INCREMENT_MRAD;
        if self.angle < 0 {
            self.angle = self.angle + TWO_PI_MRAD;
        }
    }

    /// One targeting rotation step toward `target_angle`: the spin
    /// direction is decided once per targeting episode, along the shorter
    /// arc, and is never left unset afterwards.
    pub fn rotate_to(&mut self, target_angle: i64)
        requires
            0 <= old(self).angle <= TWO_PI_MRAD,
            0 <= target_angle <= TWO_PI_MRAD,
        ensures
            final(self).rotation_direction == Some(
                match old(self).rotation_direction {
                    Some(d) => d,
                    None => rotation_direction_for(old(self).angle as int, target_angle as int),
                },
            ),
            final(self).angle == (match final(self).rotation_direction {
                Some(RotationDirection::CLOCKWISE) => next_angle_cw(old(self).angle as int),
                Some(RotationDirection::COUNTERCLOCKWISE) => next_angle_ccw(old(self).angle as int),
                None => old(self).angle as int,
            }),
            0 <= final(self).angle <= TWO_PI_MRAD,
            *final(self) == (Carrier {
                angle: final(self).angle,
                rotation_direction: final(self).rotation_direction,
                ..*old(self)
            }),
    {
        if self.rotation_direction.is_none() {
            let src = self.angle;
            let mut trg = target_angle;
            if trg < src {
                trg = trg + TWO_PI_MRAD;
            }
            self.rotation_direction = if trg - src > PI_MRAD {
                Some(RotationDirection::COUNTERCLOCKWISE)
            } else {
                Some(RotationDirection::CLOCKWISE)
            };
        }
        self.rotate();
    }

    /// Applies the effective acceleration for one tick and clamps the speed
    /// into `[0, max_speed]`. Returns `true` exactly when the unclamped
    /// speed would have dropped below zero: the carrier has arrived.
    fn accelerate(&mut self) -> (done: bool)
        requires
            -KINEMATIC_LIMIT <= old(self).effective_acceleration <= KINEMATIC_LIMIT,
            0 <= old(self).speed <= KINEMATIC_LIMIT,
            0 <= old(self).max_speed <= KINEMATIC_LIMIT,
        ensures
            done == (old(self).speed + old(self).effective_acceleration < 0),
            final(self).speed == next_speed(
                old(self).speed as int,
                old(self).effective_acceleration as int,
                old(self).max_speed as int,
            ),
            0 <= final(self).speed <= old(self).max_speed || final(self).speed <= old(self).speed,
            *final(self) == (Carrier { speed: final(self).speed, ..*old(self) }),
    {
        self.speed = self.speed + self.effective_acceleration;
        if self.speed > self.max_speed {
            self.speed = self.max_speed;
        }
        if self.speed < 0 {
            self.speed = 0;
            return true;
        }
        false
    }

    /// Counts the ticks a braking countdown from the current speed at the
    /// carrier's acceleration would take.
    fn calculate_tics_to_decelerate(&self) -> (r: u32)
        requires
            1 <= self.acceleration <= KINEMATIC_LIMIT,
            0 <= self.speed <= KINEMATIC_LIMIT,
        ensures
            r == braking_ticks(self.speed as int, self.acceleration as int),
    {
        let mut ticks: u32 = 0;
        let mut cur: i64 = self.speed;
        proof {
            lemma_braking_ticks_bound(self.speed as int, self.acceleration as int);
        }
        while cur >= 0
            invariant
                1 <= self.acceleration <= KINEMATIC_LIMIT,
                0 <= self.speed <= KINEMATIC_LIMIT,
                -self.acceleration <= cur <= self.speed,
                cur >= 0 ==> ticks + braking_ticks(cur as int, self.acceleration as int)
                    == braking_ticks(self.speed as int, self.acceleration as int),
                cur < 0 ==> ticks == braking_ticks(self.speed as int, self.acceleration as int),
                ticks <= self.speed + 1,
            decreases cur + self.acceleration,
        {
            proof {
                lemma_braking_ticks_bound(self.speed as int, self.acceleration as int);
                lemma_braking_ticks_bound(cur as int, self.acceleration as int);
                if cur - self.acceleration >= 0 {
                    lemma_braking_ticks_bound(cur - self.acceleration, self.acceleration as int);
                }
            }
            cur = cur - self.acceleration;
            ticks = ticks + 1;
        }
        ticks
    }

    /// The distance the braking countdown would cover: the running speed is
    /// summed over the countdown's ticks.
    fn calculate_distance_to_stop(&self) -> (r: i64)
        requires
            1 <= self.acceleration <= KINEMATIC_LIMIT,
            0 <= self.speed <= KINEMATIC_LIMIT,
        ensures
            r == braking_distance(self.speed as int, self.acceleration as int),
            0 <= r <= self.speed * (self.speed + 1),
    {
        let ticks = self.calculate_tics_to_decelerate();
        let mut dist: i64 = 0;
        let mut cur: i64 = self.speed;
        let mut i: u32 = 0;
        proof {
            lemma_braking_ticks_bound(self.speed as int, self.acceleration as int);
            lemma_braking_distance_bounds(self.speed as int, self.acceleration as int);
        }
        while i < ticks
            invariant
                1 <= self.acceleration <= KINEMATIC_LIMIT,
                0 <= self.speed <= KINEMATIC_LIMIT,
                ticks == braking_ticks(self.speed as int, self.acceleration as int),
                0 <= i <= ticks,
                -self.acceleration <= cur <= self.speed,
                i < ticks ==> cur >= 0 && braking_ticks(cur as int, self.acceleration as int)
                    == ticks - i,
                i == ticks ==> cur < 0,
                dist == braking_distance(self.speed as int, self.acceleration as int)
                    - (if cur >= 0 { braking_distance(cur as int, self.acceleration as int) } else { 0 }),
                0 <= dist <= self.speed * (self.speed + 1),
            decreases ticks - i,
        {
            proof {
                let a = self.acceleration as int;
                lemma_braking_distance_bounds(self.speed as int, a);
                lemma_braking_distance_bounds(cur as int, a);
                assert((self.speed as int) * (self.speed as int + 1) <= 0x1000_0000_0000_0000)
                    by (nonlinear_arith)
                    requires 0 <= self.speed <= KINEMATIC_LIMIT;
                assert(braking_distance(cur as int, a) == cur + braking_distance(cur - a, a));
                if cur - self.acceleration >= 0 {
                    lemma_braking_distance_bounds(cur - a, a);
                    lemma_braking_ticks_bound(cur - a, a);
                    assert(braking_ticks(cur as int, a) == 1 + braking_ticks(cur - a, a));
                } else {
                    assert(braking_distance(cur - a, a) == 0);
                    assert(braking_ticks(cur as int, a) == 1);
                }
            }
            dist = dist + cur;
            cur = cur - self.acceleration;
            i = i + 1;
        }
        dist
    }

    /// Moves the carrier one tick along its heading: flips into braking
    /// once the predicted stopping distance exceeds the remaining distance
    /// to `(tx, ty)`, applies the acceleration, and advances the position.
    /// Returns `true` when the carrier has come to its stop.
    fn move_forward(&mut self, tx: i64, ty: i64) -> (done: bool)
        requires
            old(self).wf_kinematics(),
            coord_in_range(tx as int),
            coord_in_range(ty as int),
        ensures
            final(self).wf_kinematics(),
            ({
                let eff = if should_brake(*old(self), tx as int, ty as int) {
                    -old(self).effective_acceleration
                } else {
                    old(self).effective_acceleration as int
                };
                let sp = next_speed(old(self).speed as int, eff as int, old(self).max_speed as int);
                &&& done == (old(self).speed + eff < 0)
                &&& final(self).effective_acceleration == eff
                &&& final(self).speed == sp
                &&& final(self).pos.x == clamp_coord(
                    old(self).pos.x + scaled_step(sp, cos_approx(old(self).angle as int)))
                &&& final(self).pos.y == clamp_coord(
                    old(self).pos.y + scaled_step(sp, sin_approx(old(self).angle as int)))
                &&& *final(self) == (Carrier {
                    pos: final(self).pos,
                    speed: final(self).speed,
                    effective_acceleration: final(self).effective_acceleration,
                    ..*old(self)
                })
            }),
    {
        if self.effective_acceleration > 0 {
            let dts = self.calculate_distance_to_stop();
            let target_pos = Position::new(tx, ty);
            let d2 = distance_squared(&self.pos, &target_pos);
            proof {
                assert(0 <= (self.speed as int) * (self.speed as int + 1) <= 0x1000_0000_0000_0000)
                    by (nonlinear_arith)
                    requires 0 <= self.speed <= KINEMATIC_LIMIT;
                assert((dts as int) * (dts as int) < 0x4000_0000_0000_0000_0000_0000_0000_0000)
                    by (nonlinear_arith)
                    requires 0 <= dts as int <= 0x1000_0000_0000_0000;
            }
            if (dts as i128) * (dts as i128) > d2 {
                self.effective_acceleration = -self.effective_acceleration;
            }
        }
        let done = self.accelerate();
        let c = crate::trig::cos_mrad(self.angle);
        let s = crate::trig::sin_mrad(self.angle);
        let step_x = scaled_step_exec(self.speed, c);
        let step_y = scaled_step_exec(self.speed, s);
        self.pos.x = clamp_coord_exec(self.pos.x + step_x);
        self.pos.y = clamp_coord_exec(self.pos.y + step_y);
        done
    }

    /// Moves one tick toward the given point.
    pub(crate) fn move_forward_to_point(&mut self, tx: i64, ty: i64) -> (done: bool)
        requires
            old(self).wf_kinematics(),
            coord_in_range(tx as int),
            coord_in_range(ty as int),
        ensures
            final(self).wf_kinematics(),
            ({
                let eff = if should_brake(*old(self), tx as int, ty as int) {
                    -old(self).effective_acceleration
                } else {
                    old(self).effective_acceleration as int
                };
                let sp = next_speed(old(self).speed as int, eff as int, old(self).max_speed as int);
                &&& done == (old(self).speed + eff < 0)
                &&& final(self).effective_acceleration == eff
                &&& final(self).speed == sp
                &&& final(self).pos.x == clamp_coord(
                    old(self).pos.x + scaled_step(sp, cos_approx(old(self).angle as int)))
                &&& final(self).pos.y == clamp_coord(
                    old(self).pos.y + scaled_step(sp, sin_approx(old(self).angle as int)))
                &&& *final(self) == (Carrier {
                    pos: final(self).pos,
                    speed: final(self).speed,
                    effective_acceleration: final(self).effective_acceleration,
                    ..*old(self)
                })
            }),
    {
        self.move_forward(tx, ty)
    }

    /// Advances the carrier by one tick: rotating toward, moving to,
    /// picking up from or putting down at its target slot, or drifting
    /// while idle. The caller guarantees that picking up happens at a
    /// non-pit slot that can supply a payload and that putting down
    /// happens at a non-spawner slot, with pit deliveries flagged.
    pub fn tick(&mut self, slots: &mut Vec<Slot>)
        requires
            old(self).wf_kinematics(),
            forall|k: int| 0 <= k < old(slots)@.len() ==> (#[trigger] old(slots)@[k]).wf(),
            (old(self).state matches State::TARGETING(t) ==> t < old(slots)@.len()),
            (old(self).state matches State::MOVING(t) ==> t < old(slots)@.len()),
            (old(self).state matches State::PICKINGUP(t) ==> {
                &&& t < old(slots)@.len()
                &&& old(slots)@[t as int].kind != SlotKind::PIT
                &&& (old(self).going_to_spawner.0 ==> (old(self).going_to_spawner.1 is Some))
                &&& (!old(self).going_to_spawner.0 ==> (old(slots)@[t as int].current_payload is Some))
            }),
            (old(self).state matches State::PUTTINGDOWN(t) ==> {
                &&& t < old(slots)@.len()
                &&& old(slots)@[t as int].kind != SlotKind::SPAWNER
                &&& old(self).payload is Some
                &&& (old(slots)@[t as int].kind == SlotKind::PIT ==> old(self).carrying_to_pit)
            }),
        ensures
            final(self).wf_kinematics(),
            final(slots)@.len() == old(slots)@.len(),
            forall|k: int| 0 <= k < old(slots)@.len() ==> (#[trigger] final(slots)@[k]).wf(),
            forall|k: int|
                0 <= k < old(slots)@.len() && tick_touched_slot(*old(self)) != Some(k as usize)
                    ==> final(slots)@[k] == old(slots)@[k],
            (old(self).state == State::IDLE || old(self).state == State::NOTARGET) ==> ({
                let eff = if should_brake(*old(self), 5000, 5000) {
                    -old(self).effective_acceleration
                } else {
                    old(self).effective_acceleration as int
                };
                let sp = next_speed(old(self).speed as int, eff, old(self).max_speed as int);
                &&& final(self).effective_acceleration == eff
                &&& final(self).speed == sp
                &&& final(self).pos.x == clamp_coord(
                    old(self).pos.x + scaled_step(sp, cos_approx(old(self).angle as int)))
                &&& final(self).pos.y == clamp_coord(
                    old(self).pos.y + scaled_step(sp, sin_approx(old(self).angle as int)))
                &&& final(self).angle == (match old(self).idle_rotation_direction {
                    Some(RotationDirection::CLOCKWISE) => next_angle_cw(old(self).angle as int),
                    Some(RotationDirection::COUNTERCLOCKWISE) => next_angle_ccw(old(self).angle as int),
                    None => old(self).angle as int,
                })
                &&& *final(self) == (Carrier {
                    pos: final(self).pos,
                    speed: final(self).speed,
                    effective_acceleration: final(self).effective_acceleration,
                    angle: final(self).angle,
                    ..*old(self)
                })
            }),
            (old(self).state matches State::TARGETING(t) ==> ({
                let b = bearing(
                    old(slots)@[t as int].pos.x - old(self).pos.x,
                    old(slots)@[t as int].pos.y - old(self).pos.y,
                );
                let diff = if b >= old(self).angle { b - old(self).angle } else { old(self).angle - b };
                &&& (diff > ANGLE_TOLERANCE_MRAD ==> {
                    let dir = match old(self).rotation_direction {
                        Some(d) => d,
                        None => rotation_direction_for(old(self).angle as int, b),
                    };
                    &&& final(self).rotation_direction == Some(dir)
                    &&& final(self).angle == (if dir == RotationDirection::CLOCKWISE {
                        next_angle_cw(old(self).angle as int)
                    } else {
                        next_angle_ccw(old(self).angle as int)
                    })
                    &&& *final(self) == (Carrier {
                        angle: final(self).angle,
                        rotation_direction: final(self).rotation_direction,
                        ..*old(self)
                    })
                })
                &&& (diff <= ANGLE_TOLERANCE_MRAD ==> {
                    &&& final(self).angle == b
                    &&& final(self).state == State::MOVING(t)
                    &&& *final(self) == (Carrier {
                        angle: final(self).angle,
                        state: State::MOVING(t),
                        ..*old(self)
                    })
                })
            })),
            (old(self).state matches State::MOVING(t) ==> ({
                let tx = old(slots)@[t as int].pos.x as int;
                let ty = old(slots)@[t as int].pos.y as int;
                let eff = if should_brake(*old(self), tx, ty) {
                    -old(self).effective_acceleration
                } else {
                    old(self).effective_acceleration as int
                };
                let sp = next_speed(old(self).speed as int, eff, old(self).max_speed as int);
                let arrived = old(self).speed + eff < 0;
                &&& final(self).speed == sp
                &&& final(self).pos.x == clamp_coord(
                    old(self).pos.x + scaled_step(sp, cos_approx(old(self).angle as int)))
                &&& final(self).pos.y == clamp_coord(
                    old(self).pos.y + scaled_step(sp, sin_approx(old(self).angle as int)))
                &&& (arrived ==> {
                    &&& final(self).speed == 0
                    &&& final(self).rotation_direction is None
                    &&& final(self).effective_acceleration == old(self).acceleration
                    &&& final(self).state == (if old(self).payload is Some {
                        State::PUTTINGDOWN(t)
                    } else {
                        State::PICKINGUP(t)
                    })
                    &&& *final(self) == (Carrier {
                        pos: final(self).pos,
                        speed: 0,
                        rotation_direction: None,
                        effective_acceleration: old(self).acceleration,
                        state: final(self).state,
                        ..*old(self)
                    })
                })
                &&& (!arrived ==> {
                    &&& final(self).effective_acceleration == eff
                    &&& *final(self) == (Carrier {
                        pos: final(self).pos,
                        speed: final(self).speed,
                        effective_acceleration: final(self).effective_acceleration,
                        ..*old(self)
                    })
                })
            })),
            (old(self).state matches State::PICKINGUP(t) ==> ({
                let cargo = if old(self).going_to_spawner.0 {
                    old(self).going_to_spawner.1->0
                } else {
                    old(slots)@[t as int].current_payload->0.cargo
                };
                &&& final(slots)@[t as int] == (Slot {
                    current_payload: None,
                    taken_care_of: false,
                    ..old(slots)@[t as int]
                })
                &&& final(self).payload == Some(Payload { cargo, taken_from: Some(t) })
                &&& *final(self) == (Carrier {
                    payload: final(self).payload,
                    state: State::LOOKINGFORTARGET,
                    ..*old(self)
                })
            })),
            (old(self).state matches State::PUTTINGDOWN(t) ==> ({
                &&& (!old(self).carrying_to_pit ==> final(slots)@[t as int] == (Slot {
                    current_payload: old(self).payload,
                    taken_care_of: false,
                    ..old(slots)@[t as int]
                }))
                &&& final(self).idle_rotation_direction is Some
                &&& *final(self) == (Carrier {
                    payload: None,
                    reserved_target: None,
                    state: State::IDLE,
                    idle_rotation_direction: final(self).idle_rotation_direction,
                    ..*old(self)
                })
            })),
            (old(self).state == State::LOOKINGFORTARGET || old(self).state matches State::DELIVERING(_))
                ==> *final(self) == *old(self),
            exists|spin: Option<RotationDirection>|
                (*final(self), final(slots)@)
                    == #[trigger] motion_step(*old(self), old(slots)@, spin),
    {
        match self.state {
            State::TARGETING(target) => {
                let tp = *slots[target].get_position();
                let target_angle = self.calculate_angle_to_point(tp.x, tp.y);
                let diff = if target_angle >= self.angle {
                    target_angle - self.angle
                } else {
                    self.angle - target_angle
                };
                if diff > ANGLE_TOLERANCE_MRAD {
                    self.rotate_to(target_angle);
                } else {
                    self.angle = target_angle;
                    self.state = State::MOVING(target);
                }
            }
            State::MOVING(target) => {
                let tp = *slots[target].get_position();
                if self.move_forward_to_point(tp.x, tp.y) {
                    self.rotation_direction = None;
                    self.effective_acceleration = self.acceleration;
                    match self.payload {
                        Some(_) => self.state = State::PUTTINGDOWN(target),
                        None => self.state = State::PICKINGUP(target),
                    }
                }
            }
            State::PICKINGUP(target) => {
                let cargo = if self.going_to_spawner.0 {
                    self.going_to_spawner.1.unwrap()
                } else {
                    slots[target].current_payload.unwrap().cargo
                };
                self.payload = Some(Payload { cargo, taken_from: Some(target) });
                let mut s = slots[target];
                s.current_payload = None;
                s.taken_care_of = false;
                slots.set(target, s);
                self.state = State::LOOKINGFORTARGET;
            }
            State::PUTTINGDOWN(target) => {
                if !self.carrying_to_pit {
                    let mut s = slots[target];
                    s.current_payload = self.payload;
                    s.taken_care_of = false;
                    slots.set(target, s);
                }
                self.reserved_target = None;
                self.payload = None;
                self.state = State::IDLE;
                self.idle_rotation_direction = Some(random_rotation_direction());
            }
            State::IDLE | State::NOTARGET => {
                self.move_forward(5000, 5000);
                self.idle_rotate();
            }
            _ => {}
        }
        proof {
            let spin = self.idle_rotation_direction;
            let step = motion_step(*old(self), old(slots)@, spin);
            match old(self).state {
                State::PICKINGUP(t) => {
                    assert(slots@ =~= step.1);
                    assert(*self == step.0);
                }
                State::PUTTINGDOWN(t) => {
                    assert(slots@ =~= step.1);
                    assert(*self == step.0);
                }
                _ => {
                    assert(slots@ =~= step.1);
                    assert(*self == step.0);
                }
            }
            assert((*self, slots@) == motion_step(*old(self), old(slots)@, spin));
        }
    }
}

/// One axis of a tick's travel, computed exactly as `scaled_step`.
fn scaled_step_exec(speed: i64, trig: i64) -> (r: i64)
    requires
        0 <= speed <= KINEMATIC_LIMIT,
        -1000 <= trig <= 1000,
    ensures
        r == scaled_step(speed as int, trig as int),
        -speed <= r <= speed,
{
    let t_abs: u64 = if trig >= 0 { trig as u64 } else { (-trig) as u64 };
    proof {
        assert((speed as int) * (t_abs as int) <= 1000 * (speed as int)) by (nonlinear_arith)
            requires
                0 <= speed as int,
                0 <= t_abs as int <= 1000;
        assert(1000 * (speed as int) <= 1_000_000_000_000);
    }
    let magnitude: u64 = (speed as u64) * t_abs;
    let stepped: u64 = magnitude / 1000;
    proof {
        lemma_div_pos_is_pos(magnitude as int, 1000);
        lemma_div_is_ordered(magnitude as int, 1000 * (speed as int), 1000);
        lemma_div_multiples_vanish(speed as int, 1000);
    }
    if trig >= 0 {
        stepped as i64
    } else {
        -(stepped as i64)
    }
}

/// Clamps a coordinate into the arena bound, exactly as `clamp_coord`.
fn clamp_coord_exec(v: i64) -> (r: i64)
    ensures
        r == clamp_coord(v as int),
        coord_in_range(r as int),
{
    if v > COORD_LIMIT {
        COORD_LIMIT
    } else if v < -COORD_LIMIT {
        -COORD_LIMIT
    } else {
        v
    }
}

} // verus!
