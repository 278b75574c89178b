use vstd::prelude::*;
use vstd::pervasive::VecAdditionalExecFns;

use crate::carrier::Carrier;
use crate::carrier::State;
use crate::carrier::movement_target;
use crate::payload::Payload;
use crate::payload::opt_payload_eq;
use crate::position::Position;
use crate::position::dist_sq;
use crate::position::dist_sq_coords;
use crate::slot::Slot;
use crate::slot::SlotKind;

verus! {

// --- The cargo-balance ledger -------------------------------------------
//
// The ledger maps each cargo value to the signed surplus across all slots:
// how many slots currently hold that cargo minus how many slots want it.
// It is kept as an association list with unique keys; entries whose value
// is zero are dropped.

/// The value recorded for `c`, or zero when no entry carries `c`.
pub open spec fn bal_lookup(m: Seq<(u64, i64)>, c: u64) -> int
    decreases m.len(),
{
    if m.len() == 0 {
        0
    } else if m[0].0 == c {
        m[0].1 as int
    } else {
        bal_lookup(m.drop_first(), c)
    }
}

/// Whether some entry carries the key `c`.
pub open spec fn bal_has(m: Seq<(u64, i64)>, c: u64) -> bool
    decreases m.len(),
{
    if m.len() == 0 {
        false
    } else if m[0].0 == c {
        true
    } else {
        bal_has(m.drop_first(), c)
    }
}

/// No key occurs twice.
pub open spec fn bal_keys_unique(m: Seq<(u64, i64)>) -> bool {
    forall|i: int, j: int| 0 <= i < j < m.len() ==> (#[trigger] m[i]).0 != (#[trigger] m[j]).0
}

/// A well-formed ledger: unique keys and no zero entries.
pub open spec fn balance_wf(m: Seq<(u64, i64)>) -> bool {
    &&& bal_keys_unique(m)
    &&& forall|i: int| 0 <= i < m.len() ==> (#[trigger] m[i]).1 != 0
}

/// A value one step up or down, held at the i64 rim instead of wrapping.
pub open spec fn bump1(v: int, up: bool) -> int {
    if up {
        if v == i64::MAX { v } else { v + 1 }
    } else {
        if v == i64::MIN { v } else { v - 1 }
    }
}

/// An entry whose key occurs nowhere earlier decides the lookup.
proof fn lemma_bal_index(m: Seq<(u64, i64)>, c: u64, i: int)
    requires
        0 <= i < m.len(),
        m[i].0 == c,
        forall|j: int| 0 <= j < i ==> (#[trigger] m[j]).0 != c,
    ensures
        bal_lookup(m, c) == m[i].1,
        bal_has(m, c),
    decreases i,
{
    if i > 0 {
        assert(m[0].0 != c);
        lemma_bal_index(m.drop_first(), c, i - 1);
    }
}

/// A key that occurs nowhere looks up to zero.
proof fn lemma_bal_absent(m: Seq<(u64, i64)>, c: u64)
    requires
        forall|j: int| 0 <= j < m.len() ==> (#[trigger] m[j]).0 != c,
    ensures
        bal_lookup(m, c) == 0,
        !bal_has(m, c),
    decreases m.len(),
{
    if m.len() > 0 {
        lemma_bal_absent(m.drop_first(), c);
    }
}

/// A key that is not present looks up to zero.
proof fn lemma_bal_not_has(m: Seq<(u64, i64)>, c: u64)
    requires
        !bal_has(m, c),
    ensures
        bal_lookup(m, c) == 0,
    decreases m.len(),
{
    if m.len() > 0 {
        lemma_bal_not_has(m.drop_first(), c);
    }
}

/// Lookups agree on two lists with the same keys whose entries differ at
/// most on keys other than `c`.
proof fn lemma_bal_congruent(m1: Seq<(u64, i64)>, m2: Seq<(u64, i64)>, c: u64)
    requires
        m1.len() == m2.len(),
        forall|k: int| 0 <= k < m1.len() ==> (#[trigger] m1[k]).0 == (#[trigger] m2[k]).0,
        forall|k: int| 0 <= k < m1.len() && (#[trigger] m1[k]).0 == c ==> m1[k] == m2[k],
    ensures
        bal_lookup(m1, c) == bal_lookup(m2, c),
        bal_has(m1, c) == bal_has(m2, c),
    decreases m1.len(),
{
    if m1.len() > 0 {
        assert(m1[0].0 == m2[0].0);
        if m1[0].0 == c {
        } else {
            lemma_bal_congruent(m1.drop_first(), m2.drop_first(), c);
        }
    }
}

/// Appending an entry changes only the lookup of a key not yet present.
proof fn lemma_bal_push(m: Seq<(u64, i64)>, e: (u64, i64), c: u64)
    ensures
        bal_lookup(m.push(e), c) == (if bal_has(m, c) {
            bal_lookup(m, c)
        } else if e.0 == c {
            e.1 as int
        } else {
            bal_lookup(m, c)
        }),
        bal_has(m.push(e), c) == (bal_has(m, c) || e.0 == c),
    decreases m.len(),
{
    let p = m.push(e);
    if m.len() == 0 {
        assert(p.len() == 1);
        assert(p[0] == e);
        assert(p.drop_first() =~= Seq::<(u64, i64)>::empty());
        assert(bal_lookup(p.drop_first(), c) == 0);
        assert(!bal_has(p.drop_first(), c));
    } else {
        assert(p[0] == m[0]);
        assert(p.drop_first() =~= m.drop_first().push(e));
        lemma_bal_push(m.drop_first(), e, c);
        if !bal_has(m, c) {
            lemma_bal_not_has(m, c);
            if !bal_has(m.drop_first(), c) {
                lemma_bal_not_has(m.drop_first(), c);
            }
        }
    }
}

/// Finds the entry carrying `cargo`, scanning from the front.
fn balance_find(balance: &Vec<(u64, i64)>, cargo: u64) -> (r: Option<usize>)
    ensures
        (r matches Some(i) ==> {
            &&& i < balance@.len()
            &&& balance@[i as int].0 == cargo
            &&& forall|j: int| 0 <= j < i ==> (#[trigger] balance@[j]).0 != cargo
        }),
        (r is None ==> forall|j: int|
            0 <= j < balance@.len() ==> (#[trigger] balance@[j]).0 != cargo),
{
    let mut idx: usize = 0;
    while idx < balance.len()
        invariant
            idx <= balance@.len(),
            forall|j: int| 0 <= j < idx ==> (#[trigger] balance@[j]).0 != cargo,
        decreases balance@.len() - idx,
    {
        if balance[idx].0 == cargo {
            return Some(idx);
        }
        idx = idx + 1;
    }
    None
}

/// Moves the entry for `cargo` one step up or down, creating it at zero
/// first when absent; zero entries are kept and filtered by the caller.
fn bump_balance(balance: &mut Vec<(u64, i64)>, cargo: u64, up: bool)
    requires
        bal_keys_unique(old(balance)@),
    ensures
        bal_keys_unique(final(balance)@),
        final(balance)@ == bump_entry(old(balance)@, cargo, up),
        forall|c: u64| #[trigger] bal_lookup(final(balance)@, c) == (if c == cargo {
            bump1(bal_lookup(old(balance)@, c), up)
        } else {
            bal_lookup(old(balance)@, c)
        }),
        forall|c: u64| #[trigger] bal_has(final(balance)@, c)
            == (bal_has(old(balance)@, c) || c == cargo),
{
    let found = balance_find(balance, cargo);
    proof {
        lemma_first_key_from(old(balance)@, cargo, 0);
    }
    match found {
        Some(i) => {
            let v: i64 = balance[i].1;
            let nv: i64 = if up {
                if v == i64::MAX { v } else { v + 1 }
            } else {
                if v == i64::MIN { v } else { v - 1 }
            };
            let ghost old_m = balance@;
            balance.set(i, (cargo, nv));
            proof {
                assert(forall|k: int| 0 <= k < balance@.len()
                    ==> (#[trigger] balance@[k]).0 == old_m[k].0);
                assert forall|c: u64| #[trigger] bal_lookup(balance@, c) == (if c == cargo {
                    bump1(bal_lookup(old_m, c), up)
                } else {
                    bal_lookup(old_m, c)
                }) by {
                    if c == cargo {
                        lemma_bal_index(old_m, c, i as int);
                        lemma_bal_index(balance@, c, i as int);
                    } else {
                        lemma_bal_congruent(old_m, balance@, c);
                    }
                }
                assert forall|c: u64| #[trigger] bal_has(balance@, c)
                    == (bal_has(old_m, c) || c == cargo) by {
                    if c == cargo {
                        lemma_bal_index(old_m, c, i as int);
                        lemma_bal_index(balance@, c, i as int);
                    } else {
                        lemma_bal_congruent(old_m, balance@, c);
                    }
                }
            }
        }
        None => {
            let ghost old_m = balance@;
            let nv: i64 = if up { 1 } else { -1 };
            balance.push((cargo, nv));
            proof {
                assert(forall|j: int| 0 <= j < old_m.len() ==> balance@[j] == old_m[j]);
                assert forall|c: u64| #[trigger] bal_lookup(balance@, c) == (if c == cargo {
                    bump1(bal_lookup(old_m, c), up)
                } else {
                    bal_lookup(old_m, c)
                }) by {
                    lemma_bal_push(old_m, (cargo, nv), c);
                    if c == cargo {
                        lemma_bal_absent(old_m, c);
                    }
                }
                assert forall|c: u64| #[trigger] bal_has(balance@, c)
                    == (bal_has(old_m, c) || c == cargo) by {
                    lemma_bal_push(old_m, (cargo, nv), c);
                    if c == cargo {
                        lemma_bal_absent(old_m, c);
                    }
                }
            }
        }
    }
}

/// Drops every zero entry, keeping order, keys and looked-up values.
fn retain_nonzero(balance: &mut Vec<(u64, i64)>)
    requires
        bal_keys_unique(old(balance)@),
    ensures
        balance_wf(final(balance)@),
        final(balance)@ == nonzero_entries(old(balance)@),
        forall|c: u64| #[trigger] bal_lookup(final(balance)@, c) == bal_lookup(old(balance)@, c),
        forall|c: u64| #[trigger] bal_has(final(balance)@, c)
            == (bal_lookup(old(balance)@, c) != 0),
{
    let mut kept: Vec<(u64, i64)> = Vec::new();
    let mut idx: usize = 0;
    proof {
        assert(balance@.take(0) =~= Seq::<(u64, i64)>::empty());
    }
    while idx < balance.len()
        invariant
            bal_keys_unique(balance@),
            idx <= balance@.len(),
            kept@ == nonzero_entries(balance@.take(idx as int)),
            bal_keys_unique(kept@),
            forall|k: int| 0 <= k < kept@.len() ==> (#[trigger] kept@[k]).1 != 0,
            forall|k: int| 0 <= k < kept@.len() ==> exists|j: int|
                0 <= j < idx && balance@[j] == #[trigger] kept@[k],
            forall|c: u64| bal_has(kept@, c) ==> #[trigger] bal_lookup(kept@, c)
                == bal_lookup(balance@, c),
            forall|c: u64, j: int| !(#[trigger] bal_has(kept@, c)) && 0 <= j < idx
                && (#[trigger] balance@[j]).0 == c ==> balance@[j].1 == 0,
        decreases balance@.len() - idx,
    {
        let entry: (u64, i64) = balance[idx];
        proof {
            assert(balance@.take(idx + 1) =~= balance@.take(idx as int).push(entry));
            lemma_nonzero_entries_push(balance@.take(idx as int), entry);
            // The key at `idx` occurs nowhere earlier, so it cannot already
            // be in `kept`, whose entries all come from the scanned prefix.
            assert(forall|j: int| 0 <= j < idx ==> (#[trigger] balance@[j]).0
                != balance@[idx as int].0);
            if bal_has(kept@, entry.0) {
                proof_bal_has_witness(kept@, entry.0);
                let k = choose|k: int| 0 <= k < kept@.len() && (#[trigger] kept@[k]).0 == entry.0;
                let j = choose|j: int| 0 <= j < idx && balance@[j] == kept@[k];
                assert(false);
            }
            lemma_bal_index(balance@, entry.0, idx as int);
        }
        if entry.1 != 0 {
            let ghost old_kept = kept@;
            kept.push(entry);
            proof {
                assert forall|c: u64| #[trigger] bal_has(kept@, c)
                    == (bal_has(old_kept, c) || entry.0 == c) by {
                    lemma_bal_push(old_kept, entry, c);
                }
                assert forall|c: u64| #[trigger] bal_lookup(kept@, c)
                    == (if bal_has(old_kept, c) || entry.0 != c {
                        bal_lookup(old_kept, c)
                    } else {
                        entry.1 as int
                    }) by {
                    lemma_bal_push(old_kept, entry, c);
                }
            }
        }
        idx = idx + 1;
    }
    proof {
        assert(balance@.take(balance@.len() as int) =~= balance@);
        assert forall|c: u64| (#[trigger] bal_has(kept@, c)) == (bal_lookup(balance@, c) != 0)
            && (bal_lookup(kept@, c) == bal_lookup(balance@, c)) by {
            if bal_has(kept@, c) {
                proof_bal_has_witness(kept@, c);
                let k = choose|k: int| 0 <= k < kept@.len() && (#[trigger] kept@[k]).0 == c
                    && kept@[k].1 == bal_lookup(kept@, c);
                let j = choose|j: int| 0 <= j < balance@.len() && balance@[j] == kept@[k];
                assert(forall|x: int| 0 <= x < j ==> (#[trigger] balance@[x]).0 != c);
                lemma_bal_index(balance@, c, j);
            } else {
                lemma_bal_not_has(kept@, c);
                if bal_has(balance@, c) {
                    proof_bal_has_witness(balance@, c);
                    let j = choose|j: int| 0 <= j < balance@.len()
                        && (#[trigger] balance@[j]).0 == c && balance@[j].1 == bal_lookup(balance@, c);
                    assert(balance@[j].1 == 0);
                } else {
                    lemma_bal_not_has(balance@, c);
                }
            }
        }
        assert forall|c: u64| (#[trigger] bal_lookup(kept@, c)) == bal_lookup(balance@, c) by {
            if bal_has(kept@, c) {
                proof_bal_has_witness(kept@, c);
                let k = choose|k: int| 0 <= k < kept@.len() && (#[trigger] kept@[k]).0 == c
                    && kept@[k].1 == bal_lookup(kept@, c);
                let j = choose|j: int| 0 <= j < balance@.len() && balance@[j] == kept@[k];
                assert(forall|x: int| 0 <= x < j ==> (#[trigger] balance@[x]).0 != c);
                lemma_bal_index(balance@, c, j);
            } else {
                lemma_bal_not_has(kept@, c);
                if bal_has(balance@, c) {
                    proof_bal_has_witness(balance@, c);
                    let j = choose|j: int| 0 <= j < balance@.len()
                        && (#[trigger] balance@[j]).0 == c && balance@[j].1 == bal_lookup(balance@, c);
                    assert(balance@[j].1 == 0);
                } else {
                    lemma_bal_not_has(balance@, c);
                }
            }
        }
    }
    *balance = kept;
}

// --- Candidate predicates -----------------------------------------------

/// A slot holding something other than what it wants, not yet claimed.
pub open spec fn mismatched_unreserved(slots: Seq<Slot>, i: int) -> bool {
    &&& slots[i].current_payload is Some
    &&& !opt_payload_eq(slots[i].current_payload, slots[i].target_payload)
    &&& !slots[i].taken_care_of
}

/// A free destination for payload `p`: an empty, unclaimed storage slot
/// whose target payload matches `p` by cargo, and never the slot `p` was
/// taken from.
pub open spec fn free_slot_for(slots: Seq<Slot>, i: int, p: Payload) -> bool {
    &&& slots[i].current_payload is None
    &&& slots[i].target_payload matches Some(t) && t.cargo == p.cargo
    &&& !slots[i].taken_care_of
    &&& slots[i].kind != SlotKind::PIT
    &&& slots[i].kind != SlotKind::SPAWNER
    &&& !(p.taken_from matches Some(tf) && tf == i)
}

/// A mismatched, unclaimed slot currently holding cargo `cargo`.
pub open spec fn mismatched_with_cargo(slots: Seq<Slot>, i: int, cargo: u64) -> bool {
    &&& !slots[i].taken_care_of
    &&& !opt_payload_eq(slots[i].current_payload, slots[i].target_payload)
    &&& slots[i].current_payload matches Some(p) && p.cargo == cargo
}

/// A permanent home for payload `p`: empty, unclaimed, wanting `p`, and
/// never the slot `p` was taken from.
pub open spec fn accepts_home(slots: Seq<Slot>, i: int, p: Payload) -> bool {
    &&& slots[i].current_payload is None
    &&& opt_payload_eq(slots[i].target_payload, Some(p))
    &&& !slots[i].taken_care_of
    &&& !(p.taken_from matches Some(tf) && tf == i)
}

/// A temporary parking place for payload `p`: empty, unclaimed, neither a
/// pit nor a spawner, and never the slot `p` was taken from.
pub open spec fn temp_candidate(slots: Seq<Slot>, i: int, p: Payload) -> bool {
    &&& slots[i].current_payload is None
    &&& slots[i].kind != SlotKind::PIT
    &&& slots[i].kind != SlotKind::SPAWNER
    &&& !slots[i].taken_care_of
    &&& !(p.taken_from matches Some(tf) && tf == i)
}

// --- Deterministic search results ----------------------------------------
//
// Each search the dispatcher runs has a spec-level twin giving its result
// outright: the least index satisfying the candidate predicate, or the
// closest candidate with the earliest index winning a tie. The executable
// searches are proved to return exactly these values, which lets the whole
// assignment pass be specified as a fold.

/// The least index at or after `i` holding a free destination for `p`.
pub open spec fn first_free_from(slots: Seq<Slot>, p: Payload, i: int) -> Option<int>
    decreases slots.len() - i when 0 <= i <= slots.len()
{
    if i >= slots.len() {
        None
    } else if free_slot_for(slots, i, p) {
        Some(i)
    } else {
        first_free_from(slots, p, i + 1)
    }
}

pub proof fn lemma_first_free_from(slots: Seq<Slot>, p: Payload, i: int)
    requires
        0 <= i <= slots.len(),
    ensures
        first_free_from(slots, p, i) is None ==> forall|k: int|
            i <= k < slots.len() ==> !(#[trigger] free_slot_for(slots, k, p)),
        first_free_from(slots, p, i) matches Some(j) ==> i <= j < slots.len()
            && free_slot_for(slots, j, p)
            && forall|k: int| i <= k < j ==> !(#[trigger] free_slot_for(slots, k, p)),
    decreases slots.len() - i,
{
    if i < slots.len() && !free_slot_for(slots, i, p) {
        lemma_first_free_from(slots, p, i + 1);
    }
}

/// The least index at or after `i` holding a mismatched, unclaimed slot.
pub open spec fn first_mismatched_from(slots: Seq<Slot>, i: int) -> Option<int>
    decreases slots.len() - i when 0 <= i <= slots.len()
{
    if i >= slots.len() {
        None
    } else if mismatched_unreserved(slots, i) {
        Some(i)
    } else {
        first_mismatched_from(slots, i + 1)
    }
}

pub proof fn lemma_first_mismatched_from(slots: Seq<Slot>, i: int)
    requires
        0 <= i <= slots.len(),
    ensures
        first_mismatched_from(slots, i) is None ==> forall|k: int|
            i <= k < slots.len() ==> !(#[trigger] mismatched_unreserved(slots, k)),
        first_mismatched_from(slots, i) matches Some(j) ==> i <= j < slots.len()
            && mismatched_unreserved(slots, j)
            && forall|k: int| i <= k < j ==> !(#[trigger] mismatched_unreserved(slots, k)),
    decreases slots.len() - i,
{
    if i < slots.len() && !mismatched_unreserved(slots, i) {
        lemma_first_mismatched_from(slots, i + 1);
    }
}

/// The least index at or after `i` holding a swap source.
pub open spec fn first_swap_from(slots: Seq<Slot>, i: int) -> Option<int>
    decreases slots.len() - i when 0 <= i <= slots.len()
{
    if i >= slots.len() {
        None
    } else if swap_source(slots, i) {
        Some(i)
    } else {
        first_swap_from(slots, i + 1)
    }
}

pub proof fn lemma_first_swap_from(slots: Seq<Slot>, i: int)
    requires
        0 <= i <= slots.len(),
    ensures
        first_swap_from(slots, i) is None ==> forall|k: int|
            i <= k < slots.len() ==> !(#[trigger] swap_source(slots, k)),
        first_swap_from(slots, i) matches Some(j) ==> i <= j < slots.len()
            && swap_source(slots, j)
            && forall|k: int| i <= k < j ==> !(#[trigger] swap_source(slots, k)),
    decreases slots.len() - i,
{
    if i < slots.len() && !swap_source(slots, i) {
        lemma_first_swap_from(slots, i + 1);
    }
}

/// The least index at or after `i` holding a permanent home for `p`.
pub open spec fn first_home_from(slots: Seq<Slot>, p: Payload, i: int) -> Option<int>
    decreases slots.len() - i when 0 <= i <= slots.len()
{
    if i >= slots.len() {
        None
    } else if accepts_home(slots, i, p) {
        Some(i)
    } else {
        first_home_from(slots, p, i + 1)
    }
}

pub proof fn lemma_first_home_from(slots: Seq<Slot>, p: Payload, i: int)
    requires
        0 <= i <= slots.len(),
    ensures
        first_home_from(slots, p, i) is None ==> forall|k: int|
            i <= k < slots.len() ==> !(#[trigger] accepts_home(slots, k, p)),
        first_home_from(slots, p, i) matches Some(j) ==> i <= j < slots.len()
            && accepts_home(slots, j, p)
            && forall|k: int| i <= k < j ==> !(#[trigger] accepts_home(slots, k, p)),
    decreases slots.len() - i,
{
    if i < slots.len() && !accepts_home(slots, i, p) {
        lemma_first_home_from(slots, p, i + 1);
    }
}

/// The least index at or after `i` of a mismatched, unclaimed slot holding
/// cargo `cargo`.
pub open spec fn first_with_cargo_from(slots: Seq<Slot>, cargo: u64, i: int) -> Option<int>
    decreases slots.len() - i when 0 <= i <= slots.len()
{
    if i >= slots.len() {
        None
    } else if mismatched_with_cargo(slots, i, cargo) {
        Some(i)
    } else {
        first_with_cargo_from(slots, cargo, i + 1)
    }
}

pub proof fn lemma_first_with_cargo_from(slots: Seq<Slot>, cargo: u64, i: int)
    requires
        0 <= i <= slots.len(),
    ensures
        first_with_cargo_from(slots, cargo, i) is None ==> forall|k: int|
            i <= k < slots.len() ==> !(#[trigger] mismatched_with_cargo(slots, k, cargo)),
        first_with_cargo_from(slots, cargo, i) matches Some(j) ==> i <= j < slots.len()
            && mismatched_with_cargo(slots, j, cargo)
            && forall|k: int| i <= k < j ==> !(#[trigger] mismatched_with_cargo(slots, k, cargo)),
    decreases slots.len() - i,
{
    if i < slots.len() && !mismatched_with_cargo(slots, i, cargo) {
        lemma_first_with_cargo_from(slots, cargo, i + 1);
    }
}

/// The least index at or after `e` of a ledger entry recording a surplus.
pub open spec fn first_surplus_from(m: Seq<(u64, i64)>, e: int) -> Option<int>
    decreases m.len() - e when 0 <= e <= m.len()
{
    if e >= m.len() {
        None
    } else if m[e].1 > 0 {
        Some(e)
    } else {
        first_surplus_from(m, e + 1)
    }
}

pub proof fn lemma_first_surplus_from(m: Seq<(u64, i64)>, e: int)
    requires
        0 <= e <= m.len(),
    ensures
        first_surplus_from(m, e) is None ==> forall|k: int|
            e <= k < m.len() ==> (#[trigger] m[k]).1 <= 0,
        first_surplus_from(m, e) matches Some(j) ==> e <= j < m.len() && m[j].1 > 0
            && forall|k: int| e <= k < j ==> (#[trigger] m[k]).1 <= 0,
    decreases m.len() - e,
{
    if e < m.len() && !(m[e].1 > 0) {
        lemma_first_surplus_from(m, e + 1);
    }
}

/// The least index at or after `e` of a ledger entry recording a deficit.
pub open spec fn first_deficit_from(m: Seq<(u64, i64)>, e: int) -> Option<int>
    decreases m.len() - e when 0 <= e <= m.len()
{
    if e >= m.len() {
        None
    } else if m[e].1 < 0 {
        Some(e)
    } else {
        first_deficit_from(m, e + 1)
    }
}

pub proof fn lemma_first_deficit_from(m: Seq<(u64, i64)>, e: int)
    requires
        0 <= e <= m.len(),
    ensures
        first_deficit_from(m, e) is None ==> forall|k: int|
            e <= k < m.len() ==> (#[trigger] m[k]).1 >= 0,
        first_deficit_from(m, e) matches Some(j) ==> e <= j < m.len() && m[j].1 < 0
            && forall|k: int| e <= k < j ==> (#[trigger] m[k]).1 >= 0,
    decreases m.len() - e,
{
    if e < m.len() && !(m[e].1 < 0) {
        lemma_first_deficit_from(m, e + 1);
    }
}

/// The least index at or after `i` of the entry carrying key `cargo`.
pub open spec fn first_key_from(m: Seq<(u64, i64)>, cargo: u64, i: int) -> Option<int>
    decreases m.len() - i when 0 <= i <= m.len()
{
    if i >= m.len() {
        None
    } else if m[i].0 == cargo {
        Some(i)
    } else {
        first_key_from(m, cargo, i + 1)
    }
}

pub proof fn lemma_first_key_from(m: Seq<(u64, i64)>, cargo: u64, i: int)
    requires
        0 <= i <= m.len(),
    ensures
        first_key_from(m, cargo, i) is None ==> forall|k: int|
            i <= k < m.len() ==> (#[trigger] m[k]).0 != cargo,
        first_key_from(m, cargo, i) matches Some(j) ==> i <= j < m.len() && m[j].0 == cargo
            && forall|k: int| i <= k < j ==> (#[trigger] m[k]).0 != cargo,
    decreases m.len() - i,
{
    if i < m.len() && m[i].0 != cargo {
        lemma_first_key_from(m, cargo, i + 1);
    }
}

/// The slot of the given kind at or after `i` closest to the point
/// `(px, py)`, the earliest index winning a tie.
pub open spec fn closest_kind_from(slots: Seq<Slot>, kind: SlotKind, px: int, py: int, i: int)
    -> Option<int>
    decreases slots.len() - i when 0 <= i <= slots.len()
{
    if i >= slots.len() {
        None
    } else {
        let rest = closest_kind_from(slots, kind, px, py, i + 1);
        if slots[i].kind != kind {
            rest
        } else {
            match rest {
                None => Some(i),
                Some(j) => if dist_sq_coords(slots[i].pos.x as int, slots[i].pos.y as int, px, py)
                    <= dist_sq_coords(slots[j].pos.x as int, slots[j].pos.y as int, px, py) {
                    Some(i)
                } else {
                    Some(j)
                },
            }
        }
    }
}

pub proof fn lemma_closest_kind_from(slots: Seq<Slot>, kind: SlotKind, px: int, py: int, i: int)
    requires
        0 <= i <= slots.len(),
    ensures
        closest_kind_from(slots, kind, px, py, i) is None ==> forall|k: int|
            i <= k < slots.len() ==> (#[trigger] slots[k]).kind != kind,
        closest_kind_from(slots, kind, px, py, i) matches Some(j) ==> i <= j < slots.len()
            && slots[j].kind == kind
            && forall|k: int| i <= k < slots.len() && (#[trigger] slots[k]).kind == kind
                ==> dist_sq_coords(slots[j].pos.x as int, slots[j].pos.y as int, px, py)
                    < dist_sq_coords(slots[k].pos.x as int, slots[k].pos.y as int, px, py)
                    || (dist_sq_coords(slots[j].pos.x as int, slots[j].pos.y as int, px, py)
                        == dist_sq_coords(slots[k].pos.x as int, slots[k].pos.y as int, px, py)
                        && j <= k),
    decreases slots.len() - i,
{
    if i < slots.len() {
        lemma_closest_kind_from(slots, kind, px, py, i + 1);
    }
}

/// The temporary parking place for `p` at or after `i` closest to the slot
/// `p` was taken from, the earliest index winning a tie.
pub open spec fn closest_temp_from(slots: Seq<Slot>, p: Payload, i: int) -> Option<int>
    decreases slots.len() - i when 0 <= i <= slots.len()
{
    if i >= slots.len() {
        None
    } else {
        let rest = closest_temp_from(slots, p, i + 1);
        let origin = slots[p.taken_from->0 as int].pos;
        if !temp_candidate(slots, i, p) {
            rest
        } else {
            match rest {
                None => Some(i),
                Some(j) => if dist_sq(slots[i].pos, origin) <= dist_sq(slots[j].pos, origin) {
                    Some(i)
                } else {
                    Some(j)
                },
            }
        }
    }
}

pub proof fn lemma_closest_temp_from(slots: Seq<Slot>, p: Payload, i: int)
    requires
        0 <= i <= slots.len(),
    ensures
        closest_temp_from(slots, p, i) is None ==> forall|k: int|
            i <= k < slots.len() ==> !(#[trigger] temp_candidate(slots, k, p)),
        closest_temp_from(slots, p, i) matches Some(j) ==> i <= j < slots.len()
            && temp_candidate(slots, j, p)
            && forall|k: int| i <= k < slots.len() && #[trigger] temp_candidate(slots, k, p)
                ==> dist_sq(slots[j].pos, slots[p.taken_from->0 as int].pos)
                    < dist_sq(slots[k].pos, slots[p.taken_from->0 as int].pos)
                    || (dist_sq(slots[j].pos, slots[p.taken_from->0 as int].pos)
                        == dist_sq(slots[k].pos, slots[p.taken_from->0 as int].pos)
                        && j <= k),
    decreases slots.len() - i,
{
    if i < slots.len() {
        lemma_closest_temp_from(slots, p, i + 1);
    }
}

// --- Deterministic ledger updates ----------------------------------------

/// The ledger after one bump of `cargo`: the unique entry carrying it is
/// stepped, or a fresh entry is appended.
pub open spec fn bump_entry(m: Seq<(u64, i64)>, cargo: u64, up: bool) -> Seq<(u64, i64)> {
    match first_key_from(m, cargo, 0) {
        Some(i) => m.update(i, (cargo, bump1(m[i].1 as int, up) as i64)),
        None => m.push((cargo, if up { 1i64 } else { -1i64 })),
    }
}

/// The ledger with its zero entries dropped, order kept.
pub open spec fn nonzero_entries(m: Seq<(u64, i64)>) -> Seq<(u64, i64)>
    decreases m.len(),
{
    if m.len() == 0 {
        Seq::empty()
    } else if m[0].1 != 0 {
        seq![m[0]] + nonzero_entries(m.drop_first())
    } else {
        nonzero_entries(m.drop_first())
    }
}

proof fn lemma_nonzero_entries_push(m: Seq<(u64, i64)>, e: (u64, i64))
    ensures
        nonzero_entries(m.push(e)) == (if e.1 != 0 {
            nonzero_entries(m).push(e)
        } else {
            nonzero_entries(m)
        }),
    decreases m.len(),
{
    let p = m.push(e);
    if m.len() == 0 {
        assert(p.drop_first() =~= Seq::<(u64, i64)>::empty());
        assert(nonzero_entries(p.drop_first()) =~= Seq::<(u64, i64)>::empty());
        if e.1 != 0 {
            assert(nonzero_entries(p) =~= nonzero_entries(m).push(e));
        }
    } else {
        assert(p[0] == m[0]);
        assert(p.drop_first() =~= m.drop_first().push(e));
        lemma_nonzero_entries_push(m.drop_first(), e);
        if m[0].1 != 0 {
            if e.1 != 0 {
                assert(seq![m[0]] + nonzero_entries(m.drop_first()).push(e)
                    =~= (seq![m[0]] + nonzero_entries(m.drop_first())).push(e));
            }
        }
    }
}

/// The ledger freshly computed from the first `k` slots: one increment per
/// held payload, one decrement per wanted payload.
pub open spec fn raw_ledger(slots: Seq<Slot>, k: int) -> Seq<(u64, i64)>
    decreases k when 0 <= k <= slots.len()
{
    if k <= 0 {
        Seq::empty()
    } else {
        let m = raw_ledger(slots, k - 1);
        let m1 = match slots[k - 1].current_payload {
            Some(p) => bump_entry(m, p.cargo, true),
            None => m,
        };
        match slots[k - 1].target_payload {
            Some(p) => bump_entry(m1, p.cargo, false),
            None => m1,
        }
    }
}

/// The ledger the dispatcher computes for a slot layout.
pub open spec fn ledger_of(slots: Seq<Slot>) -> Seq<(u64, i64)> {
    nonzero_entries(raw_ledger(slots, slots.len() as int))
}

/// The source slot the pit route picks: the first surplus entry of the
/// ledger, then the first mismatched, unclaimed slot holding that cargo.
pub open spec fn pit_route_source(m: Seq<(u64, i64)>, slots: Seq<Slot>) -> Option<int> {
    match first_surplus_from(m, 0) {
        None => None,
        Some(e) => first_with_cargo_from(slots, m[e].0, 0),
    }
}

// --- One assignment decision, as a function ------------------------------

/// A carrier pointed at a new target slot: exactly what
/// `Carrier::target_slot` does to the carrier.
pub open spec fn assigned(
    c: Carrier,
    target: usize,
    temporary: bool,
    to_pit: bool,
    to_spawner: (bool, Option<u64>),
) -> Carrier {
    Carrier {
        state: State::TARGETING(target),
        speed: 0,
        effective_acceleration: c.acceleration,
        rotation_direction: None,
        temporary_target: temporary,
        carrying_to_pit: to_pit,
        going_to_spawner: to_spawner,
        ..c
    }
}

/// The slot with its reservation flag raised.
pub open spec fn reserved_slot(s: Slot) -> Slot {
    Slot { taken_care_of: true, ..s }
}

/// The slot with its reservation flag cleared.
pub open spec fn released_slot(s: Slot) -> Slot {
    Slot { taken_care_of: false, ..s }
}

/// The dispatcher's decision for a single carrier, given the slots and
/// the ledger as the pass has left them so far: the new carrier, slots
/// and ledger. This is the whole per-carrier rulebook: the
/// temporary-target redirect, the four idle priorities in order
/// (relocate-to-pit, swap-enabler, plain mismatch, spawn), and the
/// searching retry cycle.
pub open spec fn conduct_step(c: Carrier, slots: Seq<Slot>, ledger: Seq<(u64, i64)>)
    -> (Carrier, Seq<Slot>, Seq<(u64, i64)>)
{
    match c.state {
        State::MOVING(t) => {
            if !(c.temporary_target && c.payload is Some) {
                (c, slots, ledger)
            } else {
                match first_free_from(slots, c.payload->0, 0) {
                    None => (c, slots, ledger),
                    Some(j) => if j == t {
                        (c, slots, ledger)
                    } else {
                        (
                            Carrier {
                                state: State::MOVING(j as usize),
                                ..assigned(c, j as usize, false, false, (false, None))
                            },
                            slots.update(j, reserved_slot(slots[j]))
                                .update(t as int, released_slot(slots[t as int])),
                            ledger,
                        )
                    },
                }
            }
        }
        State::IDLE => {
            match pit_route_source(ledger, slots) {
                Some(s) => {
                    match closest_kind_from(slots, SlotKind::PIT, slots[s].pos.x as int,
                        slots[s].pos.y as int, 0) {
                        None => (c, slots, ledger),
                        Some(pidx) => (
                            Carrier {
                                reserved_target: Some(pidx as usize),
                                ..assigned(c, s as usize, false, true, (false, None))
                            },
                            slots.update(s, reserved_slot(slots[s])),
                            nonzero_entries(bump_entry(ledger,
                                slots[s].current_payload->0.cargo, false)),
                        ),
                    }
                }
                None => match first_swap_from(slots, 0) {
                    Some(s) => {
                        let j = first_free_from(slots, slots[s].current_payload->0, 0)->0;
                        (
                            Carrier {
                                reserved_target: Some(j as usize),
                                ..assigned(c, s as usize, false, false, (false, None))
                            },
                            slots.update(s, reserved_slot(slots[s]))
                                .update(j, reserved_slot(slots[j])),
                            ledger,
                        )
                    }
                    None => match first_mismatched_from(slots, 0) {
                        Some(s) => (
                            assigned(c, s as usize, false, false, (false, None)),
                            slots.update(s, reserved_slot(slots[s])),
                            ledger,
                        ),
                        None => match first_deficit_from(ledger, 0) {
                            None => (c, slots, ledger),
                            Some(e) => {
                                let cargo = ledger[e].0;
                                let l2 = nonzero_entries(bump_entry(ledger, cargo, true));
                                match closest_kind_from(slots, SlotKind::SPAWNER,
                                    c.pos.x as int, c.pos.y as int, 0) {
                                    None => (c, slots, l2),
                                    Some(sp) => (
                                        assigned(c, sp as usize, false, false,
                                            (true, Some(cargo))),
                                        slots.update(sp, reserved_slot(slots[sp])),
                                        l2,
                                    ),
                                }
                            }
                        },
                    },
                },
            }
        }
        State::LOOKINGFORTARGET => {
            match c.reserved_target {
                Some(r) => (
                    assigned(c, r, c.temporary_target, c.carrying_to_pit, c.going_to_spawner),
                    slots.update(r as int, reserved_slot(slots[r as int])),
                    ledger,
                ),
                None => match first_home_from(slots, c.payload->0, 0) {
                    Some(j) => (
                        assigned(c, j as usize, c.temporary_target, c.carrying_to_pit,
                            c.going_to_spawner),
                        slots.update(j, reserved_slot(slots[j])),
                        ledger,
                    ),
                    None => (Carrier { state: State::NOTARGET, ..c }, slots, ledger),
                },
            }
        }
        State::NOTARGET => {
            match closest_temp_from(slots, c.payload->0, 0) {
                Some(j) => (
                    assigned(c, j as usize, true, false, (false, None)),
                    slots.update(j, reserved_slot(slots[j])),
                    ledger,
                ),
                None => (Carrier { state: State::LOOKINGFORTARGET, ..c }, slots, ledger),
            }
        }
        _ => (c, slots, ledger),
    }
}

/// The assignment pass folded left to right over the first `k` carriers:
/// each decision sees the slots and the ledger exactly as the decisions
/// before it left them.
pub open spec fn conduct_fold(
    carriers: Seq<Carrier>,
    slots: Seq<Slot>,
    ledger: Seq<(u64, i64)>,
    k: int,
) -> (Seq<Carrier>, Seq<Slot>, Seq<(u64, i64)>)
    decreases k when k >= 0
{
    if k <= 0 {
        (carriers, slots, ledger)
    } else {
        let prev = conduct_fold(carriers, slots, ledger, k - 1);
        let step = conduct_step(prev.0[k - 1], prev.1, prev.2);
        (prev.0.update(k - 1, step.0), step.1, step.2)
    }
}

/// What each per-carrier decision helper may assume.
pub open spec fn decision_pre(d: Dispatcher, carriers: Seq<Carrier>, slots: Seq<Slot>, i: int)
    -> bool {
    &&& sys_inv(carriers, slots)
    &&& d.cache_ok(slots)
    &&& balance_wf(d.cargo_balance@)
    &&& 0 <= i < carriers.len()
}

/// What each per-carrier decision helper establishes: only carrier `i`
/// changed, slots changed at most in their reservation flags, the fleet
/// stays consistent, and the change is exactly `conduct_step`.
pub open spec fn decision_post(
    d0: Dispatcher,
    d1: Dispatcher,
    cs0: Seq<Carrier>,
    cs1: Seq<Carrier>,
    ss0: Seq<Slot>,
    ss1: Seq<Slot>,
    i: int,
) -> bool {
    &&& sys_inv(cs1, ss1)
    &&& cs1.len() == cs0.len()
    &&& ss1.len() == ss0.len()
    &&& forall|k: int| 0 <= k < ss0.len() ==> same_but_tco(#[trigger] ss0[k], ss1[k])
    &&& forall|a: int| 0 <= a < cs0.len() && a != i ==> cs1[a] == #[trigger] cs0[a]
    &&& (cs1[i], ss1, d1.cargo_balance@) == conduct_step(cs0[i], ss0, d0.cargo_balance@)
    &&& d1.slot_distances == d0.slot_distances
    &&& d1.n_slots == d0.n_slots
    &&& balance_wf(d1.cargo_balance@)
}

/// Every decision respects the per-carrier outcome summary.
proof fn lemma_step_outcome(c: Carrier, slots: Seq<Slot>, ledger: Seq<(u64, i64)>)
    ensures
        Dispatcher::conduct_outcome(c, conduct_step(c, slots, ledger).0),
{
}

// --- The dispatcher ------------------------------------------------------

/// Global per-tick task assignment: decides which carrier goes to which
/// slot, keeps the cargo-balance ledger and a cache of pairwise squared
/// slot distances.
pub struct Dispatcher {
    pub cargo_balance: Vec<(u64, i64)>,
    pub slot_distances: Vec<i128>,
    pub n_slots: usize,
}

impl Dispatcher {
    /// The distance cache matches the given slots: one squared distance
    /// for every ordered pair, in row-major order.
    pub open spec fn cache_ok(self, slots: Seq<Slot>) -> bool {
        &&& self.n_slots == slots.len()
        &&& slots.len() * slots.len() <= usize::MAX
        &&& self.slot_distances@.len() == slots.len() * slots.len()
        &&& forall|i: int, j: int| 0 <= i < slots.len() && 0 <= j < slots.len()
            ==> #[trigger] self.slot_distances@[i * slots.len() + j]
                == dist_sq(slots[i].pos, slots[j].pos)
    }

    /// Creates a dispatcher with an empty ledger and an empty cache.
    pub fn new() -> (d: Dispatcher)
        ensures
            d.cargo_balance@.len() == 0,
            d.slot_distances@.len() == 0,
            d.n_slots == 0,
            balance_wf(d.cargo_balance@),
    {
        Dispatcher { cargo_balance: Vec::new(), slot_distances: Vec::new(), n_slots: 0 }
    }

    /// The recorded balance of `cargo`, or `None` when no entry carries it.
    pub fn get_cargo_balance(&self, cargo: u64) -> (r: Option<i64>)
        requires
            bal_keys_unique(self.cargo_balance@),
        ensures
            r matches Some(v) ==> bal_has(self.cargo_balance@, cargo)
                && v == bal_lookup(self.cargo_balance@, cargo),
            r is None ==> !bal_has(self.cargo_balance@, cargo),
    {
        let found = balance_find(&self.cargo_balance, cargo);
        match found {
            Some(i) => {
                proof { lemma_bal_index(self.cargo_balance@, cargo, i as int); }
                Some(self.cargo_balance[i].1)
            }
            None => {
                proof { lemma_bal_absent(self.cargo_balance@, cargo); }
                None
            }
        }
    }

    /// Rebuilds the ledger from the slots: for each cargo value, the count
    /// of slots holding it minus the count of slots wanting it, with zero
    /// entries dropped.
    pub fn calculate_cargo_balance(&mut self, slots: &Vec<Slot>)
        requires
            slots@.len() <= 0x4000_0000_0000_0000,
        ensures
            balance_wf(final(self).cargo_balance@),
            final(self).cargo_balance@ == ledger_of(slots@),
            forall|c: u64| #[trigger] bal_lookup(final(self).cargo_balance@, c)
                == balance_of(slots@, c),
            forall|c: u64| #[trigger] bal_has(final(self).cargo_balance@, c)
                == (balance_of(slots@, c) != 0),
            final(self).slot_distances == old(self).slot_distances,
            final(self).n_slots == old(self).n_slots,
    {
        self.cargo_balance = Vec::new();
        let mut idx: usize = 0;
        proof {
            assert(slots@.take(0) =~= Seq::<Slot>::empty());
            assert(self.cargo_balance@ =~= raw_ledger(slots@, 0));
            assert forall|c: u64| #[trigger] bal_lookup(self.cargo_balance@, c)
                == balance_of(slots@.take(0), c) by {
            }
        }
        while idx < slots.len()
            invariant
                idx <= slots@.len(),
                slots@.len() <= 0x4000_0000_0000_0000,
                bal_keys_unique(self.cargo_balance@),
                self.cargo_balance@ == raw_ledger(slots@, idx as int),
                forall|c: u64| #[trigger] bal_lookup(self.cargo_balance@, c)
                    == balance_of(slots@.take(idx as int), c),
                self.slot_distances == old(self).slot_distances,
                self.n_slots == old(self).n_slots,
            decreases slots@.len() - idx,
        {
            let ghost prefix = slots@.take(idx as int);
            let ghost mid0 = self.cargo_balance@;
            let slot: Slot = slots[idx];
            if let Some(p) = slot.current_payload {
                bump_balance(&mut self.cargo_balance, p.cargo, true);
            }
            let ghost mid1 = self.cargo_balance@;
            if let Some(p) = slot.target_payload {
                bump_balance(&mut self.cargo_balance, p.cargo, false);
            }
            proof {
                assert(slots@.take(idx + 1) =~= prefix.push(slot));
                assert(self.cargo_balance@ == raw_ledger(slots@, idx + 1));
                assert forall|c: u64| #[trigger] bal_lookup(self.cargo_balance@, c)
                    == balance_of(slots@.take(idx + 1), c) by {
                    lemma_count_push(prefix, slot, c);
                    lemma_count_bounds(prefix, c);
                    // The running value never reaches the i64 rim, so the
                    // bumps are exact increments.
                    assert(-(0x4000_0000_0000_0000) <= balance_of(prefix, c)
                        <= 0x4000_0000_0000_0000);
                }
            }
            idx = idx + 1;
        }
        proof {
            assert(slots@.take(slots@.len() as int) =~= slots@);
        }
        retain_nonzero(&mut self.cargo_balance);
    }

    /// Lowers the recorded balance of `cargo` by one, dropping the entry
    /// when it reaches zero.
    pub fn reduce_cargo_balance(&mut self, cargo: u64)
        requires
            bal_keys_unique(old(self).cargo_balance@),
        ensures
            balance_wf(final(self).cargo_balance@),
            forall|c: u64| #[trigger] bal_lookup(final(self).cargo_balance@, c)
                == (if c == cargo {
                    bump1(bal_lookup(old(self).cargo_balance@, c), false)
                } else {
                    bal_lookup(old(self).cargo_balance@, c)
                }),
            forall|c: u64| #[trigger] bal_has(final(self).cargo_balance@, c)
                == (bal_lookup(final(self).cargo_balance@, c) != 0),
            final(self).cargo_balance@
                == nonzero_entries(bump_entry(old(self).cargo_balance@, cargo, false)),
            final(self).slot_distances == old(self).slot_distances,
            final(self).n_slots == old(self).n_slots,
    {
        bump_balance(&mut self.cargo_balance, cargo, false);
        retain_nonzero(&mut self.cargo_balance);
    }

    /// Raises the recorded balance of `cargo` by one, dropping the entry
    /// when it reaches zero.
    pub fn increase_cargo_balance(&mut self, cargo: u64)
        requires
            bal_keys_unique(old(self).cargo_balance@),
        ensures
            balance_wf(final(self).cargo_balance@),
            forall|c: u64| #[trigger] bal_lookup(final(self).cargo_balance@, c)
                == (if c == cargo {
                    bump1(bal_lookup(old(self).cargo_balance@, c), true)
                } else {
                    bal_lookup(old(self).cargo_balance@, c)
                }),
            forall|c: u64| #[trigger] bal_has(final(self).cargo_balance@, c)
                == (bal_lookup(final(self).cargo_balance@, c) != 0),
            final(self).cargo_balance@
                == nonzero_entries(bump_entry(old(self).cargo_balance@, cargo, true)),
            final(self).slot_distances == old(self).slot_distances,
            final(self).n_slots == old(self).n_slots,
    {
        bump_balance(&mut self.cargo_balance, cargo, true);
        retain_nonzero(&mut self.cargo_balance);
    }

    /// The cargo the fleet should manufacture next: the first ledger entry
    /// recording a deficit. Its balance is raised at once, an optimistic
    /// reservation with no rollback.
    pub fn get_cargo_to_spawn(&mut self) -> (r: Option<u64>)
        requires
            balance_wf(old(self).cargo_balance@),
        ensures
            (first_deficit_from(old(self).cargo_balance@, 0) is None ==> r is None
                && *final(self) == *old(self)),
            (first_deficit_from(old(self).cargo_balance@, 0) matches Some(e) ==> {
                &&& r == Some(old(self).cargo_balance@[e].0)
                &&& final(self).cargo_balance@ == nonzero_entries(
                    bump_entry(old(self).cargo_balance@, old(self).cargo_balance@[e].0, true))
            }),
            (r is None ==> {
                &&& *final(self) == *old(self)
                &&& forall|k: int| 0 <= k < old(self).cargo_balance@.len()
                    ==> (#[trigger] old(self).cargo_balance@[k]).1 >= 0
            }),
            (r matches Some(c) ==> {
                &&& exists|e: int| first_deficit_at(old(self).cargo_balance@, e)
                    && (#[trigger] old(self).cargo_balance@[e]).0 == c
                &&& balance_wf(final(self).cargo_balance@)
                &&& forall|c2: u64| #[trigger] bal_lookup(final(self).cargo_balance@, c2)
                    == (if c2 == c {
                        bump1(bal_lookup(old(self).cargo_balance@, c2), true)
                    } else {
                        bal_lookup(old(self).cargo_balance@, c2)
                    })
                &&& final(self).slot_distances == old(self).slot_distances
                &&& final(self).n_slots == old(self).n_slots
            }),
    {
        let mut e: usize = 0;
        while e < self.cargo_balance.len()
            invariant
                *self == *old(self),
                e <= self.cargo_balance@.len(),
                forall|k: int| 0 <= k < e ==> (#[trigger] self.cargo_balance@[k]).1 >= 0,
                balance_wf(self.cargo_balance@),
            decreases self.cargo_balance@.len() - e,
        {
            if self.cargo_balance[e].1 < 0 {
                let missing: u64 = self.cargo_balance[e].0;
                proof {
                    assert(first_deficit_at(self.cargo_balance@, e as int));
                    assert(exists|e2: int| first_deficit_at(old(self).cargo_balance@, e2)
                        && (#[trigger] old(self).cargo_balance@[e2]).0 == missing);
                    lemma_first_deficit_from(old(self).cargo_balance@, 0);
                    assert(first_deficit_from(old(self).cargo_balance@, 0) == Some(e as int));
                }
                self.increase_cargo_balance(missing);
                return Some(missing);
            }
            e = e + 1;
        }
        proof {
            lemma_first_deficit_from(old(self).cargo_balance@, 0);
        }
        None
    }

    /// The cached squared distance between two slots.
    pub fn get_distance_slot_slot(&self, s1: usize, s2: usize) -> (r: i128)
        requires
            s1 < self.n_slots,
            s2 < self.n_slots,
            self.n_slots * self.n_slots <= usize::MAX,
            self.slot_distances@.len() == self.n_slots * self.n_slots,
        ensures
            r == self.slot_distances@[s1 * self.n_slots + s2],
    {
        proof {
            assert((s1 as int) * (self.n_slots as int) + (s2 as int)
                < (self.n_slots as int) * (self.n_slots as int)) by (nonlinear_arith)
                requires 0 <= (s1 as int) < (self.n_slots as int), 0 <= (s2 as int) < (self.n_slots as int);
        }
        self.slot_distances[s1 * self.n_slots + s2]
    }

    /// The squared distance between a slot and an arbitrary position,
    /// computed directly.
    pub fn get_distance_slot_position(&self, slots: &Vec<Slot>, s: usize, pos: &Position)
        -> (r: i128)
        requires
            s < slots@.len(),
            slots@[s as int].wf(),
            crate::position::position_in_range(*pos),
        ensures
            r == dist_sq(slots@[s as int].pos, *pos),
    {
        crate::position::distance_squared(slots[s].get_position(), pos)
    }

    /// Fills the pairwise squared-distance cache, row-major.
    pub fn calculate_slot_distances(&mut self, slots: &Vec<Slot>)
        requires
            slots@.len() * slots@.len() <= usize::MAX,
            forall|k: int| 0 <= k < slots@.len() ==> (#[trigger] slots@[k]).wf(),
        ensures
            final(self).cache_ok(slots@),
            final(self).cargo_balance == old(self).cargo_balance,
    {
        let n: usize = slots.len();
        self.n_slots = n;
        self.slot_distances = Vec::new();
        let mut i: usize = 0;
        while i < n
            invariant
                n == slots@.len(),
                slots@.len() * slots@.len() <= usize::MAX,
                forall|k: int| 0 <= k < slots@.len() ==> (#[trigger] slots@[k]).wf(),
                i <= n,
                self.n_slots == n,
                self.cargo_balance == old(self).cargo_balance,
                self.slot_distances@.len() == i * (n as int),
                forall|a: int, b: int| 0 <= a < i && 0 <= b < n
                    ==> #[trigger] self.slot_distances@[a * (n as int) + b]
                        == dist_sq(slots@[a].pos, slots@[b].pos),
            decreases n - i,
        {
            let mut j: usize = 0;
            while j < n
                invariant
                    n == slots@.len(),
                    slots@.len() * slots@.len() <= usize::MAX,
                    forall|k: int| 0 <= k < slots@.len() ==> (#[trigger] slots@[k]).wf(),
                    i < n,
                    j <= n,
                    self.n_slots == n,
                    self.cargo_balance == old(self).cargo_balance,
                    self.slot_distances@.len() == i * (n as int) + j,
                    forall|a: int, b: int| 0 <= a < i && 0 <= b < n
                        ==> #[trigger] self.slot_distances@[a * (n as int) + b]
                            == dist_sq(slots@[a].pos, slots@[b].pos),
                    forall|b: int| 0 <= b < j
                        ==> #[trigger] self.slot_distances@[i * (n as int) + b]
                            == dist_sq(slots@[i as int].pos, slots@[b].pos),
                decreases n - j,
            {
                proof {
                    assert((i as int) * (n as int) + (j as int) < (n as int) * (n as int))
                        by (nonlinear_arith)
                        requires 0 <= (i as int) < (n as int), 0 <= (j as int) < (n as int);
                }
                let p1: Position = *slots[i].get_position();
                let p2: Position = *slots[j].get_position();
                let d: i128 = crate::position::distance_squared(&p1, &p2);
                let ghost old_cache = self.slot_distances@;
                self.slot_distances.push(d);
                proof {
                    assert forall|a: int, b: int| 0 <= a < i && 0 <= b < n
                        implies #[trigger] self.slot_distances@[a * (n as int) + b]
                            == dist_sq(slots@[a].pos, slots@[b].pos) by {
                        assert(a * (n as int) + b < i * (n as int)) by (nonlinear_arith)
                            requires 0 <= a < i as int, 0 <= b < n as int;
                        assert(self.slot_distances@[a * (n as int) + b]
                            == old_cache[a * (n as int) + b]);
                    }
                    assert forall|b: int| 0 <= b < j + 1
                        implies #[trigger] self.slot_distances@[i * (n as int) + b]
                            == dist_sq(slots@[i as int].pos, slots@[b].pos) by {
                        if b < j {
                            assert(self.slot_distances@[i * (n as int) + b]
                                == old_cache[i * (n as int) + b]);
                        } else {
                            assert(i * (n as int) + b == old_cache.len());
                        }
                    }
                }
                j = j + 1;
            }
            i = i + 1;
            proof {
                assert((i - 1) * (n as int) + (n as int) == (i as int) * (n as int))
                    by (nonlinear_arith);
            }
        }
    }

    /// Rebuilds both the ledger and the distance cache.
    pub fn precalc(&mut self, slots: &Vec<Slot>)
        requires
            slots@.len() * slots@.len() <= usize::MAX,
            forall|k: int| 0 <= k < slots@.len() ==> (#[trigger] slots@[k]).wf(),
        ensures
            final(self).cache_ok(slots@),
            balance_wf(final(self).cargo_balance@),
            final(self).cargo_balance@ == ledger_of(slots@),
            forall|c: u64| #[trigger] bal_lookup(final(self).cargo_balance@, c)
                == balance_of(slots@, c),
            forall|c: u64| #[trigger] bal_has(final(self).cargo_balance@, c)
                == (balance_of(slots@, c) != 0),
    {
        proof {
            assert(slots@.len() <= 0x4000_0000_0000_0000) by (nonlinear_arith)
                requires slots@.len() * slots@.len() <= usize::MAX;
        }
        self.calculate_cargo_balance(slots);
        self.calculate_slot_distances(slots);
    }

    /// The first mismatched, unclaimed slot, scanning from the front.
    pub fn find_slot_with_mismatched_payload(&self, slots: &Vec<Slot>) -> (r: Option<usize>)
        ensures
            (r matches Some(i) ==> {
                &&& i < slots@.len()
                &&& mismatched_unreserved(slots@, i as int)
                &&& forall|j: int| 0 <= j < i ==> !(#[trigger] mismatched_unreserved(slots@, j))
            }),
            (r is None ==> forall|j: int|
                0 <= j < slots@.len() ==> !(#[trigger] mismatched_unreserved(slots@, j))),
    {
        let mut idx: usize = 0;
        while idx < slots.len()
            invariant
                idx <= slots@.len(),
                forall|j: int| 0 <= j < idx ==> !(#[trigger] mismatched_unreserved(slots@, j)),
            decreases slots@.len() - idx,
        {
            let s: Slot = slots[idx];
            if s.current_payload.is_some()
                && !crate::payload::opt_payloads_equal(&s.current_payload, &s.target_payload)
                && !s.taken_care_of
            {
                return Some(idx);
            }
            idx = idx + 1;
        }
        None
    }

    /// Looks for the first free slot whose target payload matches the given
    /// one; on success its index is written through `ii`.
    pub fn is_there_a_free_slot_for(&self, payload: Payload, slots: &Vec<Slot>, ii: &mut usize)
        -> (r: bool)
        ensures
            (r ==> {
                &&& *final(ii) < slots@.len()
                &&& free_slot_for(slots@, *final(ii) as int, payload)
                &&& forall|j: int| 0 <= j < *final(ii)
                    ==> !(#[trigger] free_slot_for(slots@, j, payload))
            }),
            (!r ==> {
                &&& *final(ii) == *old(ii)
                &&& forall|j: int| 0 <= j < slots@.len()
                    ==> !(#[trigger] free_slot_for(slots@, j, payload))
            }),
    {
        let mut idx: usize = 0;
        while idx < slots.len()
            invariant
                idx <= slots@.len(),
                *ii == *old(ii),
                forall|j: int| 0 <= j < idx ==> !(#[trigger] free_slot_for(slots@, j, payload)),
            decreases slots@.len() - idx,
        {
            let s: Slot = slots[idx];
            let target_matches: bool = match s.target_payload {
                Some(t) => t.cargo == payload.cargo,
                None => false,
            };
            let not_origin: bool = match payload.taken_from {
                Some(tf) => tf != idx,
                None => true,
            };
            if s.current_payload.is_none() && target_matches && !s.taken_care_of && !s.is_pit()
                && !s.is_spawner() && not_origin
            {
                *ii = idx;
                return true;
            }
            idx = idx + 1;
        }
        false
    }

    /// The first mismatched, unclaimed slot whose current payload already
    /// has a free destination somewhere; the destination's index comes
    /// back as the second component (zero when nothing was found).
    pub fn find_slot_with_mismatched_payload_and_free_target(&self, slots: &Vec<Slot>)
        -> (r: (Option<usize>, usize))
        ensures
            (r.0 matches Some(i) ==> {
                &&& i < slots@.len()
                &&& mismatched_unreserved(slots@, i as int)
                &&& forall|j: int| 0 <= j < i ==> !(#[trigger] swap_source(slots@, j))
                &&& r.1 < slots@.len()
                &&& free_slot_for(slots@, r.1 as int, slots@[i as int].current_payload->0)
                &&& forall|k: int| 0 <= k < r.1
                    ==> !(#[trigger] free_slot_for(slots@, k, slots@[i as int].current_payload->0))
            }),
            (r.0 is None ==> {
                &&& forall|j: int| 0 <= j < slots@.len() ==> !(#[trigger] swap_source(slots@, j))
                &&& r.1 == 0
            }),
    {
        let mut ii: usize = 0;
        let mut idx: usize = 0;
        while idx < slots.len()
            invariant
                idx <= slots@.len(),
                ii == 0,
                forall|j: int| 0 <= j < idx ==> !(#[trigger] swap_source(slots@, j)),
            decreases slots@.len() - idx,
        {
            let s: Slot = slots[idx];
            if s.current_payload.is_some()
                && !crate::payload::opt_payloads_equal(&s.current_payload, &s.target_payload)
                && !s.taken_care_of
            {
                let p: Payload = match s.current_payload {
                    Some(p) => p,
                    None => unreached(),
                };
                if self.is_there_a_free_slot_for(p, slots, &mut ii) {
                    return (Some(idx), ii);
                }
            }
            idx = idx + 1;
        }
        (None, ii)
    }

    /// The first permanent home for the carried payload: an empty,
    /// unclaimed slot wanting exactly this payload, never the slot the
    /// payload was taken from.
    pub fn find_slot_for_target(&self, slots: &Vec<Slot>, target_payload: Option<Payload>)
        -> (r: Option<usize>)
        requires
            target_payload is Some,
        ensures
            (r matches Some(i) ==> {
                &&& i < slots@.len()
                &&& accepts_home(slots@, i as int, target_payload->0)
                &&& Some(i) != target_payload->0.taken_from
                &&& forall|j: int| 0 <= j < i
                    ==> !(#[trigger] accepts_home(slots@, j, target_payload->0))
            }),
            (r is None ==> forall|j: int| 0 <= j < slots@.len()
                ==> !(#[trigger] accepts_home(slots@, j, target_payload->0))),
    {
        let t: Payload = match target_payload {
            Some(t) => t,
            None => unreached(),
        };
        let mut idx: usize = 0;
        while idx < slots.len()
            invariant
                idx <= slots@.len(),
                target_payload == Some(t),
                forall|j: int| 0 <= j < idx ==> !(#[trigger] accepts_home(slots@, j, t)),
            decreases slots@.len() - idx,
        {
            let s: Slot = slots[idx];
            let not_origin: bool = match t.taken_from {
                Some(tf) => tf != idx,
                None => true,
            };
            if s.current_payload.is_none()
                && s.accepts(target_payload)
                && !s.taken_care_of
                && not_origin
            {
                return Some(idx);
            }
            idx = idx + 1;
        }
        None
    }

    /// Whether the indexed slot can park the given payload for a while.
    pub fn is_candidate_for_temporary_slot(&self, slots: &Vec<Slot>, index: usize, target: Payload)
        -> (r: bool)
        requires
            index < slots@.len(),
        ensures
            r == temp_candidate(slots@, index as int, target),
    {
        let s: Slot = slots[index];
        let not_origin: bool = match target.taken_from {
            Some(tf) => tf != index,
            None => true,
        };
        s.current_payload.is_none() && !s.is_pit() && !s.is_spawner() && !s.taken_care_of
            && not_origin
    }

    /// The first temporary parking place for the payload, by index alone.
    pub fn _find_any_temporary_slot(&self, slots: &Vec<Slot>, target: Payload)
        -> (r: Option<usize>)
        ensures
            (r matches Some(i) ==> {
                &&& i < slots@.len()
                &&& temp_candidate(slots@, i as int, target)
                &&& Some(i) != target.taken_from
                &&& forall|j: int| 0 <= j < i ==> !(#[trigger] temp_candidate(slots@, j, target))
            }),
            (r is None ==> forall|j: int| 0 <= j < slots@.len()
                ==> !(#[trigger] temp_candidate(slots@, j, target))),
    {
        let mut idx: usize = 0;
        while idx < slots.len()
            invariant
                idx <= slots@.len(),
                forall|j: int| 0 <= j < idx ==> !(#[trigger] temp_candidate(slots@, j, target)),
            decreases slots@.len() - idx,
        {
            if self.is_candidate_for_temporary_slot(slots, idx, target) {
                return Some(idx);
            }
            idx = idx + 1;
        }
        None
    }

    /// The temporary parking place closest to the slot the payload was
    /// taken from; the earliest index wins a distance tie.
    pub fn find_closest_temporary_slot(&self, slots: &Vec<Slot>, target: Payload)
        -> (r: Option<usize>)
        requires
            target.taken_from matches Some(tf) && tf < slots@.len(),
            self.cache_ok(slots@),
        ensures
            (r matches Some(i) ==> {
                &&& i < slots@.len()
                &&& temp_candidate(slots@, i as int, target)
                &&& Some(i) != target.taken_from
                &&& forall|j: int| 0 <= j < slots@.len()
                    && #[trigger] temp_candidate(slots@, j, target)
                    ==> dist_sq(slots@[i as int].pos, slots@[target.taken_from->0 as int].pos)
                        < dist_sq(slots@[j].pos, slots@[target.taken_from->0 as int].pos)
                        || (dist_sq(slots@[i as int].pos, slots@[target.taken_from->0 as int].pos)
                            == dist_sq(slots@[j].pos, slots@[target.taken_from->0 as int].pos)
                            && i <= j)
            }),
            (r is None ==> forall|j: int| 0 <= j < slots@.len()
                ==> !(#[trigger] temp_candidate(slots@, j, target))),
    {
        let tf: usize = match target.taken_from {
            Some(tf) => tf,
            None => unreached(),
        };
        let mut best: Option<usize> = None;
        let mut best_dist: i128 = 0;
        let mut idx: usize = 0;
        while idx < slots.len()
            invariant
                idx <= slots@.len(),
                self.cache_ok(slots@),
                target.taken_from == Some(tf),
                tf < slots@.len(),
                (best matches Some(i) ==> {
                    &&& i < idx
                    &&& temp_candidate(slots@, i as int, target)
                    &&& best_dist == dist_sq(slots@[i as int].pos, slots@[tf as int].pos)
                    &&& forall|j: int| 0 <= j < idx && #[trigger] temp_candidate(slots@, j, target)
                        ==> best_dist < dist_sq(slots@[j].pos, slots@[tf as int].pos)
                            || (best_dist == dist_sq(slots@[j].pos, slots@[tf as int].pos)
                                && i <= j)
                }),
                (best is None ==> forall|j: int| 0 <= j < idx
                    ==> !(#[trigger] temp_candidate(slots@, j, target))),
            decreases slots@.len() - idx,
        {
            if self.is_candidate_for_temporary_slot(slots, idx, target) {
                let d: i128 = self.get_distance_slot_slot(idx, tf);
                proof {
                    assert((idx as int) * (slots@.len() as int) + (tf as int)
                        < (slots@.len() as int) * (slots@.len() as int)) by (nonlinear_arith)
                        requires
                            0 <= (idx as int) < (slots@.len() as int),
                            0 <= (tf as int) < (slots@.len() as int);
                }
                let better: bool = match best {
                    Some(_) => d < best_dist,
                    None => true,
                };
                if better {
                    best = Some(idx);
                    best_dist = d;
                }
            }
            idx = idx + 1;
        }
        best
    }

    /// Looks for a temporary parking place for the carried payload.
    pub fn find_temporary_slot(&self, slots: &Vec<Slot>, target: Option<Payload>)
        -> (r: Option<usize>)
        requires
            target matches Some(t) && t.taken_from matches Some(tf) && tf < slots@.len(),
            self.cache_ok(slots@),
        ensures
            (r matches Some(i) ==> {
                &&& i < slots@.len()
                &&& temp_candidate(slots@, i as int, target->0)
                &&& Some(i) != target->0.taken_from
                &&& forall|j: int| 0 <= j < slots@.len()
                    && #[trigger] temp_candidate(slots@, j, target->0)
                    ==> dist_sq(slots@[i as int].pos, slots@[target->0.taken_from->0 as int].pos)
                        < dist_sq(slots@[j].pos, slots@[target->0.taken_from->0 as int].pos)
                        || (dist_sq(slots@[i as int].pos, slots@[target->0.taken_from->0 as int].pos)
                            == dist_sq(slots@[j].pos, slots@[target->0.taken_from->0 as int].pos)
                            && i <= j)
            }),
            (r is None ==> forall|j: int| 0 <= j < slots@.len()
                ==> !(#[trigger] temp_candidate(slots@, j, target->0))),
    {
        let t: Payload = match target {
            Some(t) => t,
            None => unreached(),
        };
        self.find_closest_temporary_slot(slots, t)
    }

    /// The slot of the given kind closest to `pos`; the earliest index
    /// wins a distance tie.
    pub fn find_closest_object(&self, slots: &Vec<Slot>, pos: &Position, kind: SlotKind)
        -> (r: Option<usize>)
        requires
            forall|k: int| 0 <= k < slots@.len() ==> (#[trigger] slots@[k]).wf(),
            crate::position::position_in_range(*pos),
        ensures
            (r matches Some(i) ==> {
                &&& i < slots@.len()
                &&& slots@[i as int].kind == kind
                &&& forall|j: int| 0 <= j < slots@.len() && (#[trigger] slots@[j]).kind == kind
                    ==> dist_sq(slots@[i as int].pos, *pos) < dist_sq(slots@[j].pos, *pos)
                        || (dist_sq(slots@[i as int].pos, *pos) == dist_sq(slots@[j].pos, *pos)
                            && i <= j)
            }),
            (r is None ==> forall|j: int| 0 <= j < slots@.len()
                ==> (#[trigger] slots@[j]).kind != kind),
    {
        let mut best: Option<usize> = None;
        let mut best_dist: i128 = 0;
        let mut idx: usize = 0;
        while idx < slots.len()
            invariant
                idx <= slots@.len(),
                forall|k: int| 0 <= k < slots@.len() ==> (#[trigger] slots@[k]).wf(),
                crate::position::position_in_range(*pos),
                (best matches Some(i) ==> {
                    &&& i < idx
                    &&& slots@[i as int].kind == kind
                    &&& best_dist == dist_sq(slots@[i as int].pos, *pos)
                    &&& forall|j: int| 0 <= j < idx && (#[trigger] slots@[j]).kind == kind
                        ==> best_dist < dist_sq(slots@[j].pos, *pos)
                            || (best_dist == dist_sq(slots@[j].pos, *pos) && i <= j)
                }),
                (best is None ==> forall|j: int| 0 <= j < idx
                    ==> (#[trigger] slots@[j]).kind != kind),
            decreases slots@.len() - idx,
        {
            let s: Slot = slots[idx];
            if s.kind == kind {
                let d: i128 = self.get_distance_slot_position(slots, idx, pos);
                let better: bool = match best {
                    Some(_) => d < best_dist,
                    None => true,
                };
                if better {
                    best = Some(idx);
                    best_dist = d;
                }
            }
            idx = idx + 1;
        }
        best
    }

    /// The first mismatched, unclaimed slot currently holding `cargo`.
    pub fn find_mismatched_slot_that_contains(&self, slots: &Vec<Slot>, cargo: u64)
        -> (r: Option<usize>)
        ensures
            (r matches Some(i) ==> {
                &&& i < slots@.len()
                &&& mismatched_with_cargo(slots@, i as int, cargo)
                &&& forall|j: int| 0 <= j < i
                    ==> !(#[trigger] mismatched_with_cargo(slots@, j, cargo))
            }),
            (r is None ==> forall|j: int| 0 <= j < slots@.len()
                ==> !(#[trigger] mismatched_with_cargo(slots@, j, cargo))),
    {
        let mut idx: usize = 0;
        while idx < slots.len()
            invariant
                idx <= slots@.len(),
                forall|j: int| 0 <= j < idx ==> !(#[trigger] mismatched_with_cargo(slots@, j, cargo)),
            decreases slots@.len() - idx,
        {
            let s: Slot = slots[idx];
            if !s.taken_care_of
                && !crate::payload::opt_payloads_equal(&s.current_payload, &s.target_payload)
            {
                let holds_cargo: bool = match s.current_payload {
                    Some(p) => p.cargo == cargo,
                    None => false,
                };
                if holds_cargo {
                    return Some(idx);
                }
            }
            idx = idx + 1;
        }
        None
    }

    /// What one dispatcher pass may do to a single carrier: carriers that
    /// are rotating, picking up, putting down or delivering are private to
    /// the motion pass and stay untouched; a carrier looking for a target
    /// with a destination already reserved is sent there; the searching
    /// and idle states either keep the carrier as it was, send it toward
    /// some slot, or step the searching retry cycle. The dispatcher never
    /// moves a carrier or changes what it holds.
    pub open spec fn conduct_outcome(pre: Carrier, post: Carrier) -> bool {
        &&& post.pos == pre.pos
        &&& post.angle == pre.angle
        &&& post.payload == pre.payload
        &&& match pre.state {
            State::TARGETING(_) => post == pre,
            State::PICKINGUP(_) => post == pre,
            State::PUTTINGDOWN(_) => post == pre,
            State::DELIVERING(_) => post == pre,
            State::MOVING(_) => post == pre || (pre.temporary_target
                && post.state matches State::MOVING(_)),
            State::LOOKINGFORTARGET => match pre.reserved_target {
                Some(r) => post.state == State::TARGETING(r),
                None => (post.state matches State::TARGETING(_))
                    || post == (Carrier { state: State::NOTARGET, ..pre }),
            },
            State::NOTARGET => (post.state matches State::TARGETING(_))
                || post == (Carrier { state: State::LOOKINGFORTARGET, ..pre }),
            State::IDLE => post == pre || (post.state matches State::TARGETING(_)),
        }
    }

    /// One assignment pass over all carriers, in index order. Decisions
    /// made for earlier carriers are visible to later ones through the
    /// reservation flags and the ledger: the final state is exactly the
    /// left-to-right fold of `conduct_step` over the carriers. The pass
    /// preserves the system invariant, changes slots only in their
    /// reservation flags, and never touches positions, kinds or payloads.
    pub fn conduct(&mut self, carriers: &mut Vec<Carrier>, slots: &mut Vec<Slot>)
        requires
            sys_inv(old(carriers)@, old(slots)@),
            old(self).cache_ok(old(slots)@),
            balance_wf(old(self).cargo_balance@),
        ensures
            sys_inv(final(carriers)@, final(slots)@),
            final(carriers)@.len() == old(carriers)@.len(),
            final(slots)@.len() == old(slots)@.len(),
            forall|k: int| 0 <= k < old(slots)@.len()
                ==> same_but_tco(#[trigger] old(slots)@[k], final(slots)@[k]),
            forall|a: int| 0 <= a < old(carriers)@.len()
                ==> Self::conduct_outcome(old(carriers)@[a], #[trigger] final(carriers)@[a]),
            ({
                let f = conduct_fold(old(carriers)@, old(slots)@, old(self).cargo_balance@,
                    old(carriers)@.len() as int);
                &&& final(carriers)@ == f.0
                &&& final(slots)@ == f.1
                &&& final(self).cargo_balance@ == f.2
            }),
            final(self).slot_distances == old(self).slot_distances,
            final(self).n_slots == old(self).n_slots,
            final(self).cache_ok(final(slots)@),
            balance_wf(final(self).cargo_balance@),
    {
        let mut i: usize = 0;
        while i < carriers.len()
            invariant
                self.slot_distances == old(self).slot_distances,
                self.n_slots == old(self).n_slots,
                sys_inv(carriers@, slots@),
                carriers@.len() == old(carriers)@.len(),
                slots@.len() == old(slots)@.len(),
                forall|k: int| 0 <= k < old(slots)@.len()
                    ==> same_but_tco(#[trigger] old(slots)@[k], slots@[k]),
                forall|a: int| i <= a < carriers@.len()
                    ==> carriers@[a] == #[trigger] old(carriers)@[a],
                forall|a: int| 0 <= a < i
                    ==> Self::conduct_outcome(old(carriers)@[a], #[trigger] carriers@[a]),
                ({
                    let f = conduct_fold(old(carriers)@, old(slots)@, old(self).cargo_balance@,
                        i as int);
                    &&& carriers@ == f.0
                    &&& slots@ == f.1
                    &&& self.cargo_balance@ == f.2
                }),
                self.cache_ok(slots@),
                balance_wf(self.cargo_balance@),
                i <= carriers@.len(),
            decreases carriers@.len() - i,
        {
            let ghost pre_c = carriers@;
            let ghost pre_s = slots@;
            let ghost pre_l = self.cargo_balance@;
            let c: Carrier = carriers[i];
            match c.state {
                State::MOVING(_) => {
                    self.conduct_moving(i, carriers, slots);
                }
                State::IDLE => {
                    self.conduct_idle(i, carriers, slots);
                }
                State::LOOKINGFORTARGET => {
                    self.conduct_looking(i, carriers, slots);
                }
                State::NOTARGET => {
                    self.conduct_notarget(i, carriers, slots);
                }
                _ => {
                    proof {
                        assert(conduct_step(c, pre_s, pre_l) == (c, pre_s, pre_l));
                    }
                }
            }
            proof {
                lemma_step_outcome(pre_c[i as int], pre_s, pre_l);
                assert((carriers@[i as int], slots@, self.cargo_balance@)
                    == conduct_step(pre_c[i as int], pre_s, pre_l));
                assert(carriers@ =~= pre_c.update(i as int, carriers@[i as int]));
                assert(conduct_fold(old(carriers)@, old(slots)@, old(self).cargo_balance@,
                    i + 1).0 == carriers@);
                assert forall|k: int| 0 <= k < old(slots)@.len()
                    implies same_but_tco(#[trigger] old(slots)@[k], slots@[k]) by {
                    assert(same_but_tco(old(slots)@[k], pre_s[k]));
                    assert(same_but_tco(pre_s[k], slots@[k]));
                }
                assert forall|a: int, b: int| 0 <= a < slots@.len() && 0 <= b < slots@.len()
                    implies #[trigger] self.slot_distances@[a * (slots@.len() as int) + b]
                        == dist_sq(slots@[a].pos, slots@[b].pos) by {
                    assert(same_but_tco(pre_s[a], slots@[a]));
                    assert(same_but_tco(pre_s[b], slots@[b]));
                    assert(0 <= a * (slots@.len() as int) + b
                        < (slots@.len() as int) * (slots@.len() as int)) by (nonlinear_arith)
                        requires
                            0 <= a < slots@.len() as int,
                            0 <= b < slots@.len() as int;
                    assert(self.slot_distances@[a * (pre_s.len() as int) + b]
                        == dist_sq(pre_s[a].pos, pre_s[b].pos));
                }
            }
            i = i + 1;
        }
    }

    /// The assignment decision for one carrier in the MOVING state: a
    /// carrier bound for a temporary parking place is redirected as soon
    /// as a free destination for its payload exists elsewhere. The
    /// redirect is immediate: the carrier stays in MOVING instead of
    /// turning to face the new target first.
    #[verifier::rlimit(100)]
    fn conduct_moving(&mut self, i: usize, carriers: &mut Vec<Carrier>, slots: &mut Vec<Slot>)
        requires
            decision_pre(*old(self), old(carriers)@, old(slots)@, i as int),
            old(carriers)@[i as int].state matches State::MOVING(_),
        ensures
            decision_post(*old(self), *final(self), old(carriers)@, final(carriers)@,
                old(slots)@, final(slots)@, i as int),
    {
        let ghost pre_c = carriers@;
        let ghost pre_s = slots@;
        let ghost pre_l = self.cargo_balance@;
        let c: Carrier = carriers[i];
        proof {
            assert(carrier_inv(c, pre_s));
        }
        let target: usize = match c.state {
            State::MOVING(t) => t,
            _ => unreached(),
        };
        if c.temporary_target {
            if let Some(payload) = c.payload {
                let mut ii: usize = 0;
                let is_another_slot = self.is_there_a_free_slot_for(payload, slots, &mut ii);
                proof {
                    lemma_first_free_from(pre_s, payload, 0);
                }
                if is_another_slot && ii != target {
                    proof {
                        assert(first_free_from(pre_s, payload, 0) == Some(ii as int));
                    }
                    let mut cc = c;
                    let mut dest: Slot = slots[ii];
                    cc.target_slot(ii, &mut dest, false, false, (false, None));
                    // The redirect takes effect at once: the carrier keeps
                    // moving rather than re-entering the rotation phase.
                    cc.state = State::MOVING(ii);
                    slots.set(ii, dest);
                    let mut freed: Slot = slots[target];
                    freed.taken_care_of = false;
                    slots.set(target, freed);
                    carriers.set(i, cc);
                    proof {
                        assert(pre_s[ii as int].wf());
                        assert(slots@[ii as int].kind == SlotKind::CLASSIC);
                        assert(c.reserved_target is None);
                        assert(forall|k: int| 0 <= k < pre_s.len()
                            ==> same_but_tco(#[trigger] pre_s[k], slots@[k]));
                        lemma_sys_step(pre_c, carriers@, pre_s, slots@, i as int);
                        assert(slots@ =~= pre_s.update(ii as int, reserved_slot(pre_s[ii as int]))
                            .update(target as int, released_slot(pre_s[target as int])));
                        assert(cc == (Carrier { state: State::MOVING(ii),
                            ..assigned(c, ii, false, false, (false, None)) }));
                    }
                }
            }
        }
        proof {
            assert((carriers@[i as int], slots@, self.cargo_balance@)
                == conduct_step(pre_c[i as int], pre_s, pre_l));
        }
    }

    /// The assignment decision for one idle carrier, in priority order:
    /// relocate a surplus payload toward the nearest pit, enable a swap,
    /// fetch any mismatched payload, or manufacture a missing cargo at the
    /// nearest spawner.
    #[verifier::rlimit(100)]
    fn conduct_idle(&mut self, i: usize, carriers: &mut Vec<Carrier>, slots: &mut Vec<Slot>)
        requires
            decision_pre(*old(self), old(carriers)@, old(slots)@, i as int),
            old(carriers)@[i as int].state == State::IDLE,
        ensures
            decision_post(*old(self), *final(self), old(carriers)@, final(carriers)@,
                old(slots)@, final(slots)@, i as int),
    {
        let ghost pre_c = carriers@;
        let ghost pre_s = slots@;
        let ghost pre_l = self.cargo_balance@;
        let c: Carrier = carriers[i];
        proof {
            assert(carrier_inv(c, pre_s));
        }
        if let Some(slot_index) = self.find_slot_with_payload_that_should_go_to_the_pit(slots) {
            proof {
                assert(pit_route_source(pre_l, pre_s) == Some(slot_index as int));
            }
            let spos: Position = *slots[slot_index].get_position();
            let pit = self.find_closest_object(slots, &spos, SlotKind::PIT);
            proof {
                lemma_closest_kind_from(pre_s, SlotKind::PIT, spos.x as int, spos.y as int, 0);
            }
            if let Some(pit_index) = pit {
                proof {
                    assert(closest_kind_from(pre_s, SlotKind::PIT, spos.x as int, spos.y as int, 0)
                        == Some(pit_index as int));
                }
                let cargo_to_reduce: u64 = match slots[slot_index].current_payload {
                    Some(p) => p.cargo,
                    None => unreached(),
                };
                let mut cc = c;
                let mut src: Slot = slots[slot_index];
                cc.target_slot(slot_index, &mut src, false, true, (false, None));
                slots.set(slot_index, src);
                cc.reserved_target = Some(pit_index);
                carriers.set(i, cc);
                self.reduce_cargo_balance(cargo_to_reduce);
                proof {
                    assert(pre_s[slot_index as int].wf());
                    assert(slots@[slot_index as int].kind == SlotKind::CLASSIC);
                    assert(forall|k: int| 0 <= k < pre_s.len()
                        ==> same_but_tco(#[trigger] pre_s[k], slots@[k]));
                    lemma_sys_step(pre_c, carriers@, pre_s, slots@, i as int);
                    assert(slots@ =~= pre_s.update(slot_index as int,
                        reserved_slot(pre_s[slot_index as int])));
                    assert(cc == (Carrier { reserved_target: Some(pit_index),
                        ..assigned(c, slot_index, false, true, (false, None)) }));
                }
            }
        } else {
            let (found, possible_target) =
                self.find_slot_with_mismatched_payload_and_free_target(slots);
            proof {
                lemma_first_swap_from(pre_s, 0);
            }
            if let Some(slot_index) = found {
                proof {
                    assert(swap_source(pre_s, slot_index as int));
                    assert(first_swap_from(pre_s, 0) == Some(slot_index as int));
                    lemma_first_free_from(pre_s, pre_s[slot_index as int].current_payload->0, 0);
                    assert(first_free_from(pre_s, pre_s[slot_index as int].current_payload->0, 0)
                        == Some(possible_target as int));
                }
                let mut cc = c;
                let mut src: Slot = slots[slot_index];
                cc.target_slot(slot_index, &mut src, false, false, (false, None));
                slots.set(slot_index, src);
                let mut dst: Slot = slots[possible_target];
                dst.taken_care_of = true;
                slots.set(possible_target, dst);
                cc.reserved_target = Some(possible_target);
                carriers.set(i, cc);
                proof {
                    assert(pre_s[slot_index as int].wf());
                    assert(pre_s[possible_target as int].wf());
                    assert(slot_index != possible_target);
                    assert(slots@[slot_index as int].kind == SlotKind::CLASSIC);
                    assert(slots@[possible_target as int].kind == SlotKind::CLASSIC);
                    assert(forall|k: int| 0 <= k < pre_s.len()
                        ==> same_but_tco(#[trigger] pre_s[k], slots@[k]));
                    lemma_sys_step(pre_c, carriers@, pre_s, slots@, i as int);
                    assert(slots@ =~= pre_s.update(slot_index as int,
                        reserved_slot(pre_s[slot_index as int])).update(possible_target as int,
                        reserved_slot(pre_s[possible_target as int])));
                    assert(cc == (Carrier { reserved_target: Some(possible_target),
                        ..assigned(c, slot_index, false, false, (false, None)) }));
                }
            } else {
                let mismatched = self.find_slot_with_mismatched_payload(slots);
                proof {
                    lemma_first_mismatched_from(pre_s, 0);
                }
                if let Some(slot_index) = mismatched {
                    proof {
                        assert(first_mismatched_from(pre_s, 0) == Some(slot_index as int));
                    }
                    let mut cc = c;
                    let mut src: Slot = slots[slot_index];
                    cc.target_slot(slot_index, &mut src, false, false, (false, None));
                    slots.set(slot_index, src);
                    carriers.set(i, cc);
                    proof {
                        assert(pre_s[slot_index as int].wf());
                        assert(slots@[slot_index as int].kind == SlotKind::CLASSIC);
                        assert(forall|k: int| 0 <= k < pre_s.len()
                            ==> same_but_tco(#[trigger] pre_s[k], slots@[k]));
                        lemma_sys_step(pre_c, carriers@, pre_s, slots@, i as int);
                        assert(slots@ =~= pre_s.update(slot_index as int,
                            reserved_slot(pre_s[slot_index as int])));
                        assert(cc == assigned(c, slot_index, false, false, (false, None)));
                    }
                } else if let Some(cargo) = self.get_cargo_to_spawn() {
                    let cpos: Position = c.pos;
                    let spawner = self.find_closest_object(slots, &cpos, SlotKind::SPAWNER);
                    proof {
                        lemma_closest_kind_from(pre_s, SlotKind::SPAWNER, cpos.x as int,
                            cpos.y as int, 0);
                    }
                    if let Some(slot_index) = spawner {
                        proof {
                            assert(closest_kind_from(pre_s, SlotKind::SPAWNER, cpos.x as int,
                                cpos.y as int, 0) == Some(slot_index as int));
                        }
                        let mut cc = c;
                        let mut sp: Slot = slots[slot_index];
                        cc.target_slot(slot_index, &mut sp, false, false, (true, Some(cargo)));
                        slots.set(slot_index, sp);
                        carriers.set(i, cc);
                        proof {
                            assert(pre_s[slot_index as int].wf());
                            assert(forall|k: int| 0 <= k < pre_s.len()
                                ==> same_but_tco(#[trigger] pre_s[k], slots@[k]));
                            lemma_sys_step(pre_c, carriers@, pre_s, slots@, i as int);
                            assert(slots@ =~= pre_s.update(slot_index as int,
                                reserved_slot(pre_s[slot_index as int])));
                            assert(cc == assigned(c, slot_index, false, false,
                                (true, Some(cargo))));
                        }
                    }
                }
            }
        }
        proof {
            assert((carriers@[i as int], slots@, self.cargo_balance@)
                == conduct_step(pre_c[i as int], pre_s, pre_l));
        }
    }

    /// The assignment decision for one carrier looking for a target: it
    /// heads to its reserved destination when one exists, to the first
    /// permanent home otherwise, and steps to the searching retry state
    /// only when no home exists at all.
    #[verifier::rlimit(100)]
    fn conduct_looking(&mut self, i: usize, carriers: &mut Vec<Carrier>, slots: &mut Vec<Slot>)
        requires
            decision_pre(*old(self), old(carriers)@, old(slots)@, i as int),
            old(carriers)@[i as int].state == State::LOOKINGFORTARGET,
        ensures
            decision_post(*old(self), *final(self), old(carriers)@, final(carriers)@,
                old(slots)@, final(slots)@, i as int),
    {
        let ghost pre_c = carriers@;
        let ghost pre_s = slots@;
        let ghost pre_l = self.cargo_balance@;
        let c: Carrier = carriers[i];
        proof {
            assert(carrier_inv(c, pre_s));
        }
        match c.reserved_target {
            Some(slot_index) => {
                let mut cc = c;
                let mut s: Slot = slots[slot_index];
                cc.target_slot(
                    slot_index,
                    &mut s,
                    c.temporary_target,
                    c.carrying_to_pit,
                    c.going_to_spawner,
                );
                slots.set(slot_index, s);
                carriers.set(i, cc);
                proof {
                    assert(pre_s[slot_index as int].wf());
                    assert(forall|k: int| 0 <= k < pre_s.len()
                        ==> same_but_tco(#[trigger] pre_s[k], slots@[k]));
                    lemma_sys_step(pre_c, carriers@, pre_s, slots@, i as int);
                    assert(slots@ =~= pre_s.update(slot_index as int,
                        reserved_slot(pre_s[slot_index as int])));
                    assert(cc == assigned(c, slot_index, c.temporary_target, c.carrying_to_pit,
                        c.going_to_spawner));
                }
            }
            None => {
                let home = self.find_slot_for_target(slots, c.payload);
                proof {
                    lemma_first_home_from(pre_s, c.payload->0, 0);
                }
                match home {
                    Some(slot_index) => {
                        proof {
                            assert(first_home_from(pre_s, c.payload->0, 0)
                                == Some(slot_index as int));
                        }
                        let mut cc = c;
                        let mut s: Slot = slots[slot_index];
                        cc.target_slot(
                            slot_index,
                            &mut s,
                            c.temporary_target,
                            c.carrying_to_pit,
                            c.going_to_spawner,
                        );
                        slots.set(slot_index, s);
                        carriers.set(i, cc);
                        proof {
                            assert(pre_s[slot_index as int].wf());
                            assert(slots@[slot_index as int].kind == SlotKind::CLASSIC);
                            assert(forall|k: int| 0 <= k < pre_s.len()
                                ==> same_but_tco(#[trigger] pre_s[k], slots@[k]));
                            lemma_sys_step(pre_c, carriers@, pre_s, slots@, i as int);
                            assert(slots@ =~= pre_s.update(slot_index as int,
                                reserved_slot(pre_s[slot_index as int])));
                            assert(cc == assigned(c, slot_index, c.temporary_target,
                                c.carrying_to_pit, c.going_to_spawner));
                        }
                    }
                    None => {
                        let mut cc = c;
                        cc.state = State::NOTARGET;
                        carriers.set(i, cc);
                        proof {
                            assert(forall|k: int| 0 <= k < pre_s.len()
                                ==> same_but_tco(#[trigger] pre_s[k], slots@[k]));
                            lemma_sys_step(pre_c, carriers@, pre_s, slots@, i as int);
                        }
                    }
                }
            }
        }
        proof {
            assert((carriers@[i as int], slots@, self.cargo_balance@)
                == conduct_step(pre_c[i as int], pre_s, pre_l));
        }
    }

    /// The assignment decision for one carrier with an unplaceable
    /// payload: park it in the closest eligible slot, or step back to the
    /// searching state when none exists.
    #[verifier::rlimit(100)]
    fn conduct_notarget(&mut self, i: usize, carriers: &mut Vec<Carrier>, slots: &mut Vec<Slot>)
        requires
            decision_pre(*old(self), old(carriers)@, old(slots)@, i as int),
            old(carriers)@[i as int].state == State::NOTARGET,
        ensures
            decision_post(*old(self), *final(self), old(carriers)@, final(carriers)@,
                old(slots)@, final(slots)@, i as int),
    {
        let ghost pre_c = carriers@;
        let ghost pre_s = slots@;
        let ghost pre_l = self.cargo_balance@;
        let c: Carrier = carriers[i];
        proof {
            assert(carrier_inv(c, pre_s));
        }
        let parking = self.find_temporary_slot(slots, c.payload);
        proof {
            lemma_closest_temp_from(pre_s, c.payload->0, 0);
        }
        match parking {
            Some(slot_index) => {
                proof {
                    assert(closest_temp_from(pre_s, c.payload->0, 0) == Some(slot_index as int));
                }
                let mut cc = c;
                let mut s: Slot = slots[slot_index];
                cc.target_slot(slot_index, &mut s, true, false, (false, None));
                slots.set(slot_index, s);
                carriers.set(i, cc);
                proof {
                    assert(pre_s[slot_index as int].wf());
                    assert(slots@[slot_index as int].kind == SlotKind::CLASSIC);
                    assert(forall|k: int| 0 <= k < pre_s.len()
                        ==> same_but_tco(#[trigger] pre_s[k], slots@[k]));
                    lemma_sys_step(pre_c, carriers@, pre_s, slots@, i as int);
                    assert(slots@ =~= pre_s.update(slot_index as int,
                        reserved_slot(pre_s[slot_index as int])));
                    assert(cc == assigned(c, slot_index, true, false, (false, None)));
                }
            }
            None => {
                let mut cc = c;
                cc.state = State::LOOKINGFORTARGET;
                carriers.set(i, cc);
                proof {
                    assert(forall|k: int| 0 <= k < pre_s.len()
                        ==> same_but_tco(#[trigger] pre_s[k], slots@[k]));
                    lemma_sys_step(pre_c, carriers@, pre_s, slots@, i as int);
                }
            }
        }
        proof {
            assert((carriers@[i as int], slots@, self.cargo_balance@)
                == conduct_step(pre_c[i as int], pre_s, pre_l));
        }
    }

    /// The first mismatched, unclaimed slot holding a cargo the ledger
    /// records a surplus for: that payload should be carried to a pit.
    pub fn find_slot_with_payload_that_should_go_to_the_pit(&self, slots: &Vec<Slot>)
        -> (r: Option<usize>)
        ensures
            (pit_route_source(self.cargo_balance@, slots@) is None ==> r is None),
            (pit_route_source(self.cargo_balance@, slots@) matches Some(s)
                ==> 0 <= s < slots@.len() && r == Some(s as usize)),
            (r matches Some(i) ==> exists|e: int| {
                &&& #[trigger] first_surplus_at(self.cargo_balance@, e)
                &&& i < slots@.len()
                &&& mismatched_with_cargo(slots@, i as int, self.cargo_balance@[e].0)
                &&& forall|j: int| 0 <= j < i
                    ==> !(#[trigger] mismatched_with_cargo(slots@, j, self.cargo_balance@[e].0))
            }),
            (r is None ==> {
                ||| forall|k: int| 0 <= k < self.cargo_balance@.len()
                        ==> (#[trigger] self.cargo_balance@[k]).1 <= 0
                ||| exists|e: int| #[trigger] first_surplus_at(self.cargo_balance@, e)
                        && forall|j: int| 0 <= j < slots@.len()
                            ==> !(#[trigger] mismatched_with_cargo(slots@, j, self.cargo_balance@[e].0))
            }),
    {
        let mut e: usize = 0;
        while e < self.cargo_balance.len()
            invariant
                e <= self.cargo_balance@.len(),
                forall|k: int| 0 <= k < e ==> (#[trigger] self.cargo_balance@[k]).1 <= 0,
            decreases self.cargo_balance@.len() - e,
        {
            if self.cargo_balance[e].1 > 0 {
                let excessive: u64 = self.cargo_balance[e].0;
                proof {
                    assert(first_surplus_at(self.cargo_balance@, e as int));
                    lemma_first_surplus_from(self.cargo_balance@, 0);
                    assert(first_surplus_from(self.cargo_balance@, 0) == Some(e as int));
                }
                let found = self.find_mismatched_slot_that_contains(slots, excessive);
                proof {
                    lemma_first_with_cargo_from(slots@, excessive, 0);
                }
                return found;
            }
            e = e + 1;
        }
        proof {
            lemma_first_surplus_from(self.cargo_balance@, 0);
        }
        None
    }
}

/// A mismatched, unclaimed slot whose current payload has a free
/// destination slot waiting somewhere.
pub open spec fn swap_source(slots: Seq<Slot>, i: int) -> bool {
    &&& mismatched_unreserved(slots, i)
    &&& exists|j: int| 0 <= j < slots.len()
        && #[trigger] free_slot_for(slots, j, slots[i].current_payload->0)
}

// --- The system invariant ------------------------------------------------
//
// A slot index is "claimed" by a carrier when it is the carrier's movement
// target or its reserved destination and the slot stores payloads (pits and
// spawners are shared freely). The dispatcher and the carriers together
// keep every claimed slot marked as taken care of, and no storage slot
// claimed by two carriers.

/// Whether carrier `c` claims the storage slot at index `k`.
pub open spec fn claims_slot(c: Carrier, slots: Seq<Slot>, k: int) -> bool {
    &&& slots[k].kind == SlotKind::CLASSIC
    &&& {
        ||| movement_target(c) matches Some(t) && t == k
        ||| c.reserved_target matches Some(r) && r == k
    }
}

/// Everything a single carrier keeps consistent with the slots.
pub open spec fn carrier_inv(c: Carrier, slots: Seq<Slot>) -> bool {
    &&& c.wf_kinematics()
    &&& (movement_target(c) matches Some(t) ==> {
        &&& t < slots.len()
        &&& (c.payload is None ==> slots[t as int].kind != SlotKind::PIT
            && (!c.going_to_spawner.0 ==> (slots[t as int].current_payload is Some)))
        &&& (c.payload is Some ==> slots[t as int].kind != SlotKind::SPAWNER
            && (slots[t as int].kind == SlotKind::PIT ==> c.carrying_to_pit))
    })
    &&& (c.reserved_target matches Some(r) ==> {
        &&& r < slots.len()
        &&& slots[r as int].kind != SlotKind::SPAWNER
        &&& (slots[r as int].kind == SlotKind::PIT ==> c.carrying_to_pit)
    })
    &&& (c.payload matches Some(p) ==> p.taken_from matches Some(tf) && tf < slots.len())
    &&& (c.state == State::IDLE ==> (c.payload is None) && (c.reserved_target is None))
    &&& (c.state == State::LOOKINGFORTARGET ==> c.payload is Some)
    &&& (c.state == State::NOTARGET ==> (c.payload is Some) && (c.reserved_target is None))
    &&& (c.state matches State::PICKINGUP(_) ==> c.payload is None)
    &&& (c.state matches State::PUTTINGDOWN(_) ==> c.payload is Some)
    &&& (c.going_to_spawner.0 ==> c.going_to_spawner.1 is Some)
    &&& (c.temporary_target ==> c.reserved_target is None)
    &&& (movement_target(c) matches Some(t)
        ==> c.reserved_target matches Some(r)
        ==> c.payload is None
        ==> r != t)
}

/// Every claimed slot is marked as taken care of.
pub open spec fn claims_marked(carriers: Seq<Carrier>, slots: Seq<Slot>) -> bool {
    forall|a: int, k: int| 0 <= a < carriers.len() && 0 <= k < slots.len()
        && #[trigger] claims_slot(carriers[a], slots, k) ==> slots[k].taken_care_of
}

/// No storage slot is claimed by two carriers.
pub open spec fn claims_disjoint(carriers: Seq<Carrier>, slots: Seq<Slot>) -> bool {
    forall|a: int, b: int, k: int|
        0 <= a < b < carriers.len() && 0 <= k < slots.len()
        ==> !((#[trigger] claims_slot(carriers[a], slots, k))
            && (#[trigger] claims_slot(carriers[b], slots, k)))
}

/// The invariant tying the whole fleet together.
pub open spec fn sys_inv(carriers: Seq<Carrier>, slots: Seq<Slot>) -> bool {
    &&& forall|k: int| 0 <= k < slots.len() ==> (#[trigger] slots[k]).wf()
    &&& forall|a: int| 0 <= a < carriers.len() ==> carrier_inv(#[trigger] carriers[a], slots)
    &&& claims_marked(carriers, slots)
    &&& claims_disjoint(carriers, slots)
}

/// Mutual exclusion, stated plainly: under the system invariant — which
/// `conduct` and `Swarm::tick` maintain — no storage slot is the movement
/// target of two carriers, and every storage slot some carrier is bound to
/// is marked as taken care of.
pub proof fn lemma_mutual_exclusion(carriers: Seq<Carrier>, slots: Seq<Slot>, a: int, b: int, k: usize)
    requires
        sys_inv(carriers, slots),
        0 <= a < carriers.len(),
        0 <= b < carriers.len(),
        a != b,
        k < slots.len(),
        slots[k as int].kind == SlotKind::CLASSIC,
    ensures
        !(movement_target(carriers[a]) == Some(k)
            && movement_target(carriers[b]) == Some(k)),
        movement_target(carriers[a]) == Some(k) ==> slots[k as int].taken_care_of,
{
    if movement_target(carriers[a]) == Some(k) {
        assert(claims_slot(carriers[a], slots, k as int));
    }
    if movement_target(carriers[b]) == Some(k) {
        assert(claims_slot(carriers[b], slots, k as int));
    }
    if a < b {
        assert(!(claims_slot(carriers[a], slots, k as int)
            && claims_slot(carriers[b], slots, k as int)));
    } else {
        assert(!(claims_slot(carriers[b], slots, k as int)
            && claims_slot(carriers[a], slots, k as int)));
    }
}

/// The slots agree except possibly on the reservation flag.
pub open spec fn same_but_tco(a: Slot, b: Slot) -> bool {
    b == (Slot { taken_care_of: b.taken_care_of, ..a })
}

/// One dispatcher decision step preserves the system invariant: only
/// carrier `i` changed, slots changed at most in their reservation flags,
/// the changed carrier respects its own invariant, its claims are marked,
/// its fresh claims were unclaimed, and flags were cleared only on slots
/// the carrier itself gave up.
proof fn lemma_sys_step(
    old_c: Seq<Carrier>,
    new_c: Seq<Carrier>,
    old_s: Seq<Slot>,
    new_s: Seq<Slot>,
    i: int,
)
    requires
        sys_inv(old_c, old_s),
        new_c.len() == old_c.len(),
        new_s.len() == old_s.len(),
        0 <= i < old_c.len(),
        forall|a: int| 0 <= a < old_c.len() && a != i ==> new_c[a] == #[trigger] old_c[a],
        forall|k: int| 0 <= k < old_s.len() ==> same_but_tco(#[trigger] old_s[k], new_s[k]),
        carrier_inv(new_c[i], new_s),
        forall|k: int| 0 <= k < new_s.len() && #[trigger] claims_slot(new_c[i], new_s, k)
            ==> new_s[k].taken_care_of,
        forall|k: int| 0 <= k < new_s.len() && #[trigger] claims_slot(new_c[i], new_s, k)
            && !claims_slot(old_c[i], old_s, k) ==> !old_s[k].taken_care_of,
        forall|k: int| 0 <= k < old_s.len() && (#[trigger] old_s[k]).taken_care_of
            && !new_s[k].taken_care_of
            ==> !claims_slot(new_c[i], new_s, k)
                && (old_s[k].kind == SlotKind::CLASSIC ==> claims_slot(old_c[i], old_s, k)),
    ensures
        sys_inv(new_c, new_s),
{
    assert forall|k: int| 0 <= k < new_s.len() implies (#[trigger] new_s[k]).wf() by {
        assert(same_but_tco(old_s[k], new_s[k]));
        assert(old_s[k].wf());
    }
    assert forall|a: int| 0 <= a < new_c.len()
        implies carrier_inv(#[trigger] new_c[a], new_s) by {
        if a != i {
            assert(new_c[a] == old_c[a]);
            assert(carrier_inv(old_c[a], old_s));
            assert forall|k: int| 0 <= k < old_s.len()
                implies (#[trigger] new_s[k]).kind == old_s[k].kind
                    && new_s[k].current_payload == old_s[k].current_payload by {
                assert(same_but_tco(old_s[k], new_s[k]));
            }
        }
    }
    assert forall|a: int, k: int| 0 <= a < new_c.len() && 0 <= k < new_s.len()
        && #[trigger] claims_slot(new_c[a], new_s, k)
        implies new_s[k].taken_care_of by {
        assert(same_but_tco(old_s[k], new_s[k]));
        if a != i {
            assert(new_c[a] == old_c[a]);
            assert(claims_slot(old_c[a], old_s, k));
            assert(old_s[k].taken_care_of);
            if !new_s[k].taken_care_of {
                // The flag was cleared; the slot is a storage slot (carrier
                // a claims it), so carrier i claimed it before,
                // contradicting disjointness.
                assert(old_s[k].kind == SlotKind::CLASSIC);
                assert(claims_slot(old_c[i], old_s, k));
                if a < i {
                    assert(!(claims_slot(old_c[a], old_s, k)
                        && claims_slot(old_c[i], old_s, k)));
                } else {
                    assert(!(claims_slot(old_c[i], old_s, k)
                        && claims_slot(old_c[a], old_s, k)));
                }
            }
        }
    }
    assert forall|a: int, b: int, k: int|
        0 <= a < b < new_c.len() && 0 <= k < new_s.len()
        implies !((#[trigger] claims_slot(new_c[a], new_s, k))
            && (#[trigger] claims_slot(new_c[b], new_s, k))) by {
        assert(same_but_tco(old_s[k], new_s[k]));
        if a != i && b != i {
            assert(new_c[a] == old_c[a]);
            assert(new_c[b] == old_c[b]);
            assert(claims_slot(new_c[a], new_s, k) == claims_slot(old_c[a], old_s, k));
            assert(claims_slot(new_c[b], new_s, k) == claims_slot(old_c[b], old_s, k));
        } else {
            let o = if a == i { b } else { a };
            assert(new_c[o] == old_c[o]);
            if claims_slot(new_c[i], new_s, k) && claims_slot(new_c[o], new_s, k) {
                assert(claims_slot(old_c[o], old_s, k));
                assert(old_s[k].taken_care_of);
                if claims_slot(old_c[i], old_s, k) {
                    if i < o {
                        assert(!(claims_slot(old_c[i], old_s, k)
                            && claims_slot(old_c[o], old_s, k)));
                    } else {
                        assert(!(claims_slot(old_c[o], old_s, k)
                            && claims_slot(old_c[i], old_s, k)));
                    }
                } else {
                    assert(!old_s[k].taken_care_of);
                }
            }
        }
    }
}

// --- Counting cargo across slots ----------------------------------------

/// How many slots currently hold cargo `c`.
pub open spec fn count_current(slots: Seq<Slot>, c: u64) -> int
    decreases slots.len(),
{
    if slots.len() == 0 {
        0
    } else {
        (if slots[0].current_payload matches Some(p) && p.cargo == c { 1int } else { 0int })
            + count_current(slots.drop_first(), c)
    }
}

/// How many slots want cargo `c`.
pub open spec fn count_target(slots: Seq<Slot>, c: u64) -> int
    decreases slots.len(),
{
    if slots.len() == 0 {
        0
    } else {
        (if slots[0].target_payload matches Some(p) && p.cargo == c { 1int } else { 0int })
            + count_target(slots.drop_first(), c)
    }
}

/// The signed surplus of cargo `c`: slots holding it minus slots wanting it.
pub open spec fn balance_of(slots: Seq<Slot>, c: u64) -> int {
    count_current(slots, c) - count_target(slots, c)
}

/// Counting one more slot adds that slot's own contribution.
proof fn lemma_count_push(slots: Seq<Slot>, e: Slot, c: u64)
    ensures
        count_current(slots.push(e), c) == count_current(slots, c)
            + (if e.current_payload matches Some(p) && p.cargo == c { 1int } else { 0int }),
        count_target(slots.push(e), c) == count_target(slots, c)
            + (if e.target_payload matches Some(p) && p.cargo == c { 1int } else { 0int }),
    decreases slots.len(),
{
    let p = slots.push(e);
    if slots.len() == 0 {
        assert(p[0] == e);
        assert(p.drop_first() =~= Seq::<Slot>::empty());
        assert(count_current(p.drop_first(), c) == 0);
        assert(count_target(p.drop_first(), c) == 0);
        assert(count_current(slots, c) == 0);
        assert(count_target(slots, c) == 0);
    } else {
        assert(p[0] == slots[0]);
        assert(p.drop_first() =~= slots.drop_first().push(e));
        lemma_count_push(slots.drop_first(), e, c);
    }
}

/// Counts stay between zero and the number of slots.
proof fn lemma_count_bounds(slots: Seq<Slot>, c: u64)
    ensures
        0 <= count_current(slots, c) <= slots.len(),
        0 <= count_target(slots, c) <= slots.len(),
    decreases slots.len(),
{
    if slots.len() > 0 {
        lemma_count_bounds(slots.drop_first(), c);
    }
}

/// The first ledger entry recording a surplus, if any: every entry before
/// `e` records a deficit or nothing.
pub open spec fn first_surplus_at(m: Seq<(u64, i64)>, e: int) -> bool {
    &&& 0 <= e < m.len()
    &&& m[e].1 > 0
    &&& forall|k: int| 0 <= k < e ==> (#[trigger] m[k]).1 <= 0
}

/// The first ledger entry recording a deficit, if any.
pub open spec fn first_deficit_at(m: Seq<(u64, i64)>, e: int) -> bool {
    &&& 0 <= e < m.len()
    &&& m[e].1 < 0
    &&& forall|k: int| 0 <= k < e ==> (#[trigger] m[k]).1 >= 0
}

/// Every present key is carried by a concrete entry.
proof fn proof_bal_has_witness(m: Seq<(u64, i64)>, c: u64)
    requires
        bal_has(m, c),
    ensures
        exists|i: int| 0 <= i < m.len() && (#[trigger] m[i]).0 == c,
        bal_keys_unique(m) ==> exists|i: int|
            0 <= i < m.len() && (#[trigger] m[i]).0 == c && m[i].1 == bal_lookup(m, c),
    decreases m.len(),
{
    if m[0].0 == c {
        assert(m[0].0 == c);
        if bal_keys_unique(m) {
            lemma_bal_index(m, c, 0);
        }
    } else {
        proof_bal_has_witness(m.drop_first(), c);
        let i = choose|i: int| 0 <= i < m.drop_first().len()
            && (#[trigger] m.drop_first()[i]).0 == c;
        assert(m[i + 1].0 == c);
        if bal_keys_unique(m) {
            assert(forall|j: int| 0 <= j < i + 1 ==> (#[trigger] m[j]).0 != c);
            lemma_bal_index(m, c, i + 1);
        }
    }
}

} // verus!
