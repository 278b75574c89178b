//! A fleet of carriers moves payloads between slots until every slot holds
//! what its target asks for. Carriers follow a per-tick state machine with
//! an integer kinematic model (milli-unit coordinates, milliradian
//! headings); a dispatcher assigns tasks once per tick, keeps a cargo
//! surplus ledger and a pairwise slot-distance cache, and guarantees that
//! no storage slot is ever claimed by two carriers at once.

pub mod carrier;
pub mod dispatcher;
pub mod payload;
pub mod position;
pub mod slot;
pub mod trig;

pub use carrier::Carrier;
pub use carrier::RotationDirection;
pub use carrier::State;
pub use payload::Payload;
pub use position::Position;
pub use slot::Slot;
pub use slot::SlotKind;

use vstd::prelude::*;
use vstd::pervasive::VecAdditionalExecFns;

use crate::carrier::motion_fold;
use crate::carrier::motion_step;
use crate::carrier::movement_target;
use crate::carrier::tick_touched_slot;
use crate::dispatcher::conduct_fold;
use crate::dispatcher::ledger_of;
use crate::dispatcher::Dispatcher;
use crate::dispatcher::balance_wf;
use crate::dispatcher::carrier_inv;
use crate::dispatcher::claims_slot;
use crate::dispatcher::sys_inv;
use crate::position::dist_sq;

verus! {

/// One dispatcher pass then one motion pass: a single carrier's motion
/// step preserves the system invariant. Only carrier `i` changed; at most
/// the slot it was picking from or putting into changed, and only in its
/// stored payload and reservation flag; the carrier claims no slot it did
/// not already claim.
proof fn lemma_sys_tick_step(
    old_c: Seq<Carrier>,
    new_c: Seq<Carrier>,
    old_s: Seq<Slot>,
    new_s: Seq<Slot>,
    i: int,
)
    requires
        sys_inv(old_c, old_s),
        new_c.len() == old_c.len(),
        new_s.len() == old_s.len(),
        0 <= i < old_c.len(),
        forall|a: int| 0 <= a < old_c.len() && a != i ==> new_c[a] == #[trigger] old_c[a],
        forall|k: int| 0 <= k < old_s.len()
            && tick_touched_slot(old_c[i]) != Some(k as usize)
            ==> new_s[k] == #[trigger] old_s[k],
        forall|k: int| 0 <= k < old_s.len() ==> {
            &&& (#[trigger] new_s[k]).pos == old_s[k].pos
            &&& new_s[k].kind == old_s[k].kind
            &&& new_s[k].target_payload == old_s[k].target_payload
        },
        forall|k: int| 0 <= k < new_s.len() ==> (#[trigger] new_s[k]).wf(),
        carrier_inv(new_c[i], new_s),
        forall|k: int| 0 <= k < new_s.len() && #[trigger] claims_slot(new_c[i], new_s, k)
            ==> claims_slot(old_c[i], old_s, k),
        forall|k: int| 0 <= k < new_s.len() && #[trigger] claims_slot(new_c[i], new_s, k)
            ==> new_s[k].taken_care_of,
        forall|k: int| 0 <= k < old_s.len() && (#[trigger] old_s[k]).taken_care_of
            && !new_s[k].taken_care_of
            ==> !claims_slot(new_c[i], new_s, k)
                && (old_s[k].kind == SlotKind::CLASSIC ==> claims_slot(old_c[i], old_s, k)),
    ensures
        sys_inv(new_c, new_s),
{
    assert forall|a: int| 0 <= a < new_c.len()
        implies carrier_inv(#[trigger] new_c[a], new_s) by {
        if a != i {
            assert(new_c[a] == old_c[a]);
            assert(carrier_inv(old_c[a], old_s));
            // The only slot whose stored payload changed is claimed by
            // carrier i in the old state whenever it is a storage slot, so
            // no other carrier's safety conditions look at it.
            match movement_target(old_c[a]) {
                Some(t) => {
                    if old_c[a].payload is None && !old_c[a].going_to_spawner.0 {
                        assert(old_s[t as int].current_payload is Some);
                        assert(old_s[t as int].kind == SlotKind::CLASSIC);
                        assert(claims_slot(old_c[a], old_s, t as int));
                        if new_s[t as int] != old_s[t as int] {
                            let k0 = t as int;
                            assert(tick_touched_slot(old_c[i]) == Some(t));
                            assert(claims_slot(old_c[i], old_s, k0));
                            if a < i {
                                assert(!(claims_slot(old_c[a], old_s, k0)
                                    && claims_slot(old_c[i], old_s, k0)));
                            } else {
                                assert(!(claims_slot(old_c[i], old_s, k0)
                                    && claims_slot(old_c[a], old_s, k0)));
                            }
                        }
                    }
                }
                None => {}
            }
        }
    }
    assert forall|a: int, k: int| 0 <= a < new_c.len() && 0 <= k < new_s.len()
        && #[trigger] claims_slot(new_c[a], new_s, k)
        implies new_s[k].taken_care_of by {
        if a != i {
            assert(new_c[a] == old_c[a]);
            assert(claims_slot(old_c[a], old_s, k));
            assert(old_s[k].taken_care_of);
            if !new_s[k].taken_care_of {
                assert(old_s[k].kind == SlotKind::CLASSIC);
                assert(claims_slot(old_c[i], old_s, k));
                if a < i {
                    assert(!(claims_slot(old_c[a], old_s, k)
                        && claims_slot(old_c[i], old_s, k)));
                } else {
                    assert(!(claims_slot(old_c[i], old_s, k)
                        && claims_slot(old_c[a], old_s, k)));
                }
            }
        }
    }
    assert forall|a: int, b: int, k: int|
        0 <= a < b < new_c.len() && 0 <= k < new_s.len()
        implies !((#[trigger] claims_slot(new_c[a], new_s, k))
            && (#[trigger] claims_slot(new_c[b], new_s, k))) by {
        if a != i && b != i {
            assert(new_c[a] == old_c[a]);
            assert(new_c[b] == old_c[b]);
            assert(claims_slot(new_c[a], new_s, k) == claims_slot(old_c[a], old_s, k));
            assert(claims_slot(new_c[b], new_s, k) == claims_slot(old_c[b], old_s, k));
        } else {
            let o = if a == i { b } else { a };
            assert(new_c[o] == old_c[o]);
            if claims_slot(new_c[i], new_s, k) && claims_slot(new_c[o], new_s, k) {
                assert(claims_slot(old_c[i], old_s, k));
                assert(claims_slot(old_c[o], old_s, k));
                if i < o {
                    assert(!(claims_slot(old_c[i], old_s, k)
                        && claims_slot(old_c[o], old_s, k)));
                } else {
                    assert(!(claims_slot(old_c[o], old_s, k)
                        && claims_slot(old_c[i], old_s, k)));
                }
            }
        }
    }
}

/// Adding an idle carrier with no claims leaves the fleet consistent.
proof fn lemma_sys_push_carrier(carriers: Seq<Carrier>, slots: Seq<Slot>, c: Carrier)
    requires
        sys_inv(carriers, slots),
        carrier_inv(c, slots),
        movement_target(c) is None,
        c.reserved_target is None,
    ensures
        sys_inv(carriers.push(c), slots),
{
    let nc = carriers.push(c);
    assert forall|a: int| 0 <= a < nc.len()
        implies carrier_inv(#[trigger] nc[a], slots) by {
        if a < carriers.len() {
            assert(nc[a] == carriers[a]);
        } else {
            assert(nc[a] == c);
        }
    }
    assert forall|a: int, k: int| 0 <= a < nc.len() && 0 <= k < slots.len()
        && #[trigger] claims_slot(nc[a], slots, k)
        implies slots[k].taken_care_of by {
        if a < carriers.len() {
            assert(nc[a] == carriers[a]);
        } else {
            assert(nc[a] == c);
        }
    }
    assert forall|a: int, b: int, k: int|
        0 <= a < b < nc.len() && 0 <= k < slots.len()
        implies !((#[trigger] claims_slot(nc[a], slots, k))
            && (#[trigger] claims_slot(nc[b], slots, k))) by {
        if b < carriers.len() {
            assert(nc[a] == carriers[a]);
            assert(nc[b] == carriers[b]);
        } else {
            assert(nc[b] == c);
        }
    }
}

/// Adding a well-formed slot leaves the fleet consistent: nobody can be
/// bound to an index that did not exist yet.
proof fn lemma_sys_push_slot(carriers: Seq<Carrier>, slots: Seq<Slot>, s: Slot)
    requires
        sys_inv(carriers, slots),
        s.wf(),
    ensures
        sys_inv(carriers, slots.push(s)),
{
    let ns = slots.push(s);
    assert forall|k: int| 0 <= k < ns.len() implies (#[trigger] ns[k]).wf() by {
        if k < slots.len() {
            assert(ns[k] == slots[k]);
        } else {
            assert(ns[k] == s);
        }
    }
    assert forall|a: int| 0 <= a < carriers.len()
        implies carrier_inv(#[trigger] carriers[a], ns) by {
        assert(carrier_inv(carriers[a], slots));
        assert(forall|k: int| 0 <= k < slots.len() ==> ns[k] == #[trigger] slots[k]);
    }
    assert forall|a: int, k: int| 0 <= a < carriers.len() && 0 <= k < ns.len()
        && #[trigger] claims_slot(carriers[a], ns, k)
        implies ns[k].taken_care_of by {
        assert(carrier_inv(carriers[a], slots));
        if k < slots.len() {
            assert(ns[k] == slots[k]);
            assert(claims_slot(carriers[a], slots, k));
        }
    }
    assert forall|a: int, b: int, k: int|
        0 <= a < b < carriers.len() && 0 <= k < ns.len()
        implies !((#[trigger] claims_slot(carriers[a], ns, k))
            && (#[trigger] claims_slot(carriers[b], ns, k))) by {
        if k < slots.len() {
            assert(ns[k] == slots[k]);
            assert(claims_slot(carriers[a], ns, k) == claims_slot(carriers[a], slots, k));
            assert(claims_slot(carriers[b], ns, k) == claims_slot(carriers[b], slots, k));
        } else {
            assert(carrier_inv(carriers[a], slots));
        }
    }
}

/// The state a tick's assignment pass reaches: the fresh ledger (computed
/// on the first tick, kept otherwise) folded through the dispatcher's
/// per-carrier decisions.
pub open spec fn assigned_state(s: Swarm) -> (Seq<Carrier>, Seq<Slot>, Seq<(u64, i64)>) {
    let led0 = if s.first_tick {
        ledger_of(s.slots@)
    } else {
        s.dispatcher.cargo_balance@
    };
    conduct_fold(s.carriers@, s.slots@, led0, s.carriers@.len() as int)
}

/// The main struct: it owns the carriers, the slots and the dispatcher,
/// and advances the whole simulation one tick at a time.
pub struct Swarm {
    pub carriers: Vec<Carrier>,
    pub slots: Vec<Slot>,
    pub first_tick: bool,
    pub idle_ticks: u8,
    pub dispatcher: Dispatcher,
}

impl Swarm {
    /// The swarm is consistent: the fleet invariant holds, the ledger is
    /// well formed, and once the first tick has run the distance cache
    /// matches the slots.
    pub open spec fn wf(self) -> bool {
        &&& sys_inv(self.carriers@, self.slots@)
        &&& balance_wf(self.dispatcher.cargo_balance@)
        &&& (!self.first_tick ==> self.dispatcher.cache_ok(self.slots@))
    }

    pub open spec fn spec_carriers(self) -> Seq<Carrier> {
        self.carriers@
    }

    pub open spec fn spec_slots(self) -> Seq<Slot> {
        self.slots@
    }

    pub open spec fn spec_first_tick(self) -> bool {
        self.first_tick
    }

    /// Constructs a new, empty swarm.
    pub fn new() -> (s: Swarm)
        ensures
            s.wf(),
            s.spec_carriers().len() == 0,
            s.spec_slots().len() == 0,
            s.spec_first_tick(),
    {
        Swarm {
            carriers: Vec::new(),
            slots: Vec::new(),
            first_tick: true,
            idle_ticks: 0,
            dispatcher: Dispatcher::new(),
        }
    }

    /// Adds a new carrier. A freshly created carrier is idle, empty and
    /// bound to no slot.
    pub fn add_carrier(&mut self, carrier: Carrier)
        requires
            old(self).wf(),
            carrier.wf_kinematics(),
            carrier.state == State::IDLE,
            carrier.payload is None,
            carrier.reserved_target is None,
            carrier.going_to_spawner.0 ==> (carrier.going_to_spawner.1 is Some),
        ensures
            final(self).wf(),
            final(self).spec_carriers() == old(self).spec_carriers().push(carrier),
            final(self).spec_slots() == old(self).spec_slots(),
            final(self).spec_first_tick() == old(self).spec_first_tick(),
    {
        proof {
            lemma_sys_push_carrier(self.carriers@, self.slots@, carrier);
        }
        Swarm::add_object(&mut self.carriers, carrier);
    }

    /// Adds a new slot. The distance cache and the ledger are stale until
    /// the first tick, or `slot_data_changed`, recomputes them.
    pub fn add_slot(&mut self, slot: Slot)
        requires
            old(self).wf(),
            slot.wf(),
        ensures
            sys_inv(final(self).spec_carriers(), final(self).spec_slots()),
            balance_wf(final(self).dispatcher.cargo_balance@),
            final(self).spec_slots() == old(self).spec_slots().push(slot),
            final(self).spec_carriers() == old(self).spec_carriers(),
            final(self).spec_first_tick() == old(self).spec_first_tick(),
            final(self).spec_first_tick() ==> final(self).wf(),
    {
        proof {
            lemma_sys_push_slot(self.carriers@, self.slots@, slot);
        }
        Swarm::add_object(&mut self.slots, slot);
    }

    /// Returns all carriers.
    pub fn get_carriers(&self) -> (r: &Vec<Carrier>)
        ensures
            r@ == self.spec_carriers(),
    {
        &self.carriers
    }

    /// Returns all slots.
    pub fn get_slots(&self) -> (r: &Vec<Slot>)
        ensures
            r@ == self.spec_slots(),
    {
        &self.slots
    }

    /// Returns mutable access to the slots, for drivers that rearrange the
    /// layout; `slot_data_changed` must be called afterwards.
    pub fn get_slots_mut(&mut self) -> (r: &mut Vec<Slot>)
        ensures
            (*r)@ == old(self).slots@,
            *final(self) == (Swarm { slots: *final(r), ..*old(self) }),
    {
        &mut self.slots
    }

    /// Advances the simulation by one tick: the dispatcher assigns tasks,
    /// then every carrier moves. Returns `true` once all carriers have
    /// been idle for two consecutive ticks: the layout needs no more work.
    #[verifier::rlimit(100)]
    pub fn tick(&mut self) -> (r: bool)
        requires
            old(self).wf(),
            old(self).first_tick ==> old(self).slots@.len() * old(self).slots@.len()
                <= usize::MAX,
        ensures
            final(self).wf(),
            !final(self).first_tick,
            final(self).carriers@.len() == old(self).carriers@.len(),
            final(self).slots@.len() == old(self).slots@.len(),
            forall|k: int| 0 <= k < old(self).slots@.len() ==> {
                &&& (#[trigger] final(self).slots@[k]).pos == old(self).slots@[k].pos
                &&& final(self).slots@[k].kind == old(self).slots@[k].kind
                &&& final(self).slots@[k].target_payload == old(self).slots@[k].target_payload
            },
            ({
                let all_idle = forall|a: int| 0 <= a < final(self).carriers@.len()
                    ==> (#[trigger] final(self).carriers@[a]).state == State::IDLE;
                &&& (all_idle ==> {
                    &&& final(self).idle_ticks == (if old(self).idle_ticks >= 254 {
                        3int
                    } else {
                        old(self).idle_ticks + 1
                    })
                    &&& r == (final(self).idle_ticks >= 2)
                })
                &&& (!all_idle ==> final(self).idle_ticks == 0 && r == false)
            }),
            // One tick is exactly the assignment pass folded over the
            // carriers, then the motion pass folded over the carriers,
            // with some sequence of idle spin draws.
            final(self).dispatcher.cargo_balance@ == assigned_state(*old(self)).2,
            exists|spins: Seq<Option<RotationDirection>>|
                (final(self).carriers@, final(self).slots@)
                    == #[trigger] motion_fold(assigned_state(*old(self)).0,
                        assigned_state(*old(self)).1, spins,
                        old(self).carriers@.len() as int),
    {
        if self.first_tick {
            self.dispatcher.precalc(&self.slots);
            self.first_tick = false;
        }
        self.dispatcher.conduct(&mut self.carriers, &mut self.slots);
        let ghost mid_c = self.carriers@;
        let ghost mid_s = self.slots@;
        let ghost mid_d = self.dispatcher;
        let ghost mut spins: Seq<Option<RotationDirection>> = Seq::empty();
        let mut j: usize = 0;
        while j < self.carriers.len()
            invariant
                sys_inv(self.carriers@, self.slots@),
                self.dispatcher.cache_ok(self.slots@),
                balance_wf(self.dispatcher.cargo_balance@),
                !self.first_tick,
                self.idle_ticks == old(self).idle_ticks,
                self.carriers@.len() == old(self).carriers@.len(),
                self.slots@.len() == old(self).slots@.len(),
                forall|k: int| 0 <= k < old(self).slots@.len() ==> {
                    &&& (#[trigger] self.slots@[k]).pos == old(self).slots@[k].pos
                    &&& self.slots@[k].kind == old(self).slots@[k].kind
                    &&& self.slots@[k].target_payload == old(self).slots@[k].target_payload
                },
                spins.len() == j,
                (self.carriers@, self.slots@) == motion_fold(mid_c, mid_s, spins, j as int),
                self.dispatcher == mid_d,
                j <= self.carriers@.len(),
            decreases self.carriers@.len() - j,
        {
            let ghost pre_c = self.carriers@;
            let ghost pre_s = self.slots@;
            let mut cj: Carrier = self.carriers[j];
            proof {
                assert(carrier_inv(cj, pre_s));
            }
            cj.tick(&mut self.slots);
            self.carriers.set(j, cj);
            proof {
                let spin = choose|sp: Option<RotationDirection>|
                    (cj, self.slots@) == #[trigger] motion_step(pre_c[j as int], pre_s, sp);
                let ghost old_spins = spins;
                spins = spins.push(spin);
                crate::carrier::lemma_motion_fold_prefix(mid_c, mid_s, old_spins, spins,
                    j as int);
                assert((cj, self.slots@) == motion_step(pre_c[j as int], pre_s, spin));
                assert(self.carriers@ =~= pre_c.update(j as int, cj));
                assert((self.carriers@, self.slots@)
                    == motion_fold(mid_c, mid_s, spins, j + 1));
                assert(forall|a: int| 0 <= a < pre_c.len() && a != j
                    ==> self.carriers@[a] == #[trigger] pre_c[a]);
                assert forall|k: int| 0 <= k < pre_s.len() implies {
                    &&& (#[trigger] self.slots@[k]).pos == pre_s[k].pos
                    &&& self.slots@[k].kind == pre_s[k].kind
                    &&& self.slots@[k].target_payload == pre_s[k].target_payload
                } by {
                    if tick_touched_slot(pre_c[j as int]) != Some(k as usize) {
                        assert(self.slots@[k] == pre_s[k]);
                    }
                }
                assert forall|k: int| 0 <= k < self.slots@.len()
                    && #[trigger] claims_slot(self.carriers@[j as int], self.slots@, k)
                    implies self.slots@[k].taken_care_of by {
                    assert(claims_slot(pre_c[j as int], pre_s, k));
                    assert(pre_s[k].taken_care_of);
                    if tick_touched_slot(pre_c[j as int]) == Some(k as usize) {
                        // The slot released this tick is never one the
                        // carrier still claims: its reserved destination is
                        // distinct from the slot it picked from, and a
                        // delivery ends with no claims at all.
                        assert(!claims_slot(self.carriers@[j as int], self.slots@, k));
                    } else {
                        assert(self.slots@[k] == pre_s[k]);
                    }
                }
                lemma_sys_tick_step(pre_c, self.carriers@, pre_s, self.slots@, j as int);
                assert forall|a: int, b: int|
                    0 <= a < self.slots@.len() && 0 <= b < self.slots@.len()
                    implies #[trigger] self.dispatcher.slot_distances@[
                        a * (self.slots@.len() as int) + b]
                        == dist_sq(self.slots@[a].pos, self.slots@[b].pos) by {
                    assert(0 <= a * (self.slots@.len() as int) + b
                        < (self.slots@.len() as int) * (self.slots@.len() as int))
                        by (nonlinear_arith)
                        requires
                            0 <= a < self.slots@.len() as int,
                            0 <= b < self.slots@.len() as int;
                    assert(self.dispatcher.slot_distances@[a * (pre_s.len() as int) + b]
                        == dist_sq(pre_s[a].pos, pre_s[b].pos));
                }
            }
            j = j + 1;
        }
        let finished = self.job_finished();
        proof {
            let n = old(self).carriers@.len() as int;
            let mid = assigned_state(*old(self));
            assert(mid.0 == mid_c && mid.1 == mid_s && mid.2 == mid_d.cargo_balance@);
            assert(self.dispatcher.cargo_balance@ == mid.2);
            assert((self.carriers@, self.slots@) == motion_fold(mid.0, mid.1, spins, n));
        }
        finished
    }

    /// Recomputes the ledger and the distance cache; call it after adding
    /// slots or changing their payloads through `get_slots_mut`.
    pub fn slot_data_changed(&mut self)
        requires
            old(self).wf(),
            old(self).slots@.len() * old(self).slots@.len() <= usize::MAX,
        ensures
            final(self).wf(),
            final(self).dispatcher.cache_ok(final(self).slots@),
            balance_wf(final(self).dispatcher.cargo_balance@),
            forall|c: u64| #[trigger] dispatcher::bal_lookup(final(self).dispatcher.cargo_balance@, c)
                == dispatcher::balance_of(final(self).slots@, c),
            final(self).carriers@ == old(self).carriers@,
            final(self).slots@ == old(self).slots@,
            final(self).first_tick == old(self).first_tick,
            final(self).idle_ticks == old(self).idle_ticks,
    {
        self.dispatcher.precalc(&self.slots);
    }

    fn add_object<U>(vec: &mut Vec<U>, obj: U)
        ensures
            final(vec)@ == old(vec)@.push(obj),
    {
        vec.push(obj);
    }

    /// Whether every carrier is idle.
    fn all_carriers_idle(&self) -> (r: bool)
        ensures
            r == (forall|a: int| 0 <= a < self.carriers@.len()
                ==> (#[trigger] self.carriers@[a]).state == State::IDLE),
    {
        let mut a: usize = 0;
        while a < self.carriers.len()
            invariant
                a <= self.carriers@.len(),
                forall|x: int| 0 <= x < a ==> (#[trigger] self.carriers@[x]).state == State::IDLE,
            decreases self.carriers@.len() - a,
        {
            if !self.carriers[a].get_state().is_idle() {
                return false;
            }
            a = a + 1;
        }
        true
    }

    /// Debounces the completion signal: the job counts as finished once
    /// every carrier has been idle for two consecutive ticks.
    fn job_finished(&mut self) -> (r: bool)
        ensures
            *final(self) == (Swarm { idle_ticks: final(self).idle_ticks, ..*old(self) }),
            ({
                let all_idle = forall|a: int| 0 <= a < old(self).carriers@.len()
                    ==> (#[trigger] old(self).carriers@[a]).state == State::IDLE;
                &&& (all_idle ==> {
                    &&& final(self).idle_ticks == (if old(self).idle_ticks >= 254 {
                        3int
                    } else {
                        old(self).idle_ticks + 1
                    })
                    &&& r == (final(self).idle_ticks >= 2)
                })
                &&& (!all_idle ==> final(self).idle_ticks == 0 && r == false)
            }),
    {
        if self.all_carriers_idle() {
            self.idle_ticks = if self.idle_ticks >= 254 { 3 } else { self.idle_ticks + 1 };
            if self.idle_ticks >= 2 {
                return true;
            }
        } else {
            self.idle_ticks = 0;
        }
        false
    }
}

} // verus!


