use vstd::prelude::*;

verus! {

/// A piece of cargo being moved around by carriers, together with the index
/// of the slot it was most recently removed from. The provenance index is
/// bookkeeping only: two payloads are equal exactly when their cargo values
/// are equal.
#[derive(Copy, Clone, Debug)]
pub struct Payload {
    /// This is the actual cargo value.
    pub cargo: u64,

    pub taken_from: Option<usize>,
}

/// Payload equality: the cargo values agree; provenance is ignored.
pub open spec fn payload_eq(a: Payload, b: Payload) -> bool {
    a.cargo == b.cargo
}

/// Equality of optional payloads, lifted from `payload_eq`.
pub open spec fn opt_payload_eq(a: Option<Payload>, b: Option<Payload>) -> bool {
    match (a, b) {
        (None, None) => true,
        (Some(x), Some(y)) => payload_eq(x, y),
        _ => false,
    }
}

impl Payload {
    /// Creates a new payload with no provenance recorded.
    pub fn new(cargo: u64) -> (p: Payload)
        ensures
            p.cargo == cargo,
            p.taken_from is None,
    {
        Payload { cargo, taken_from: None }
    }
}

impl PartialEq for Payload {
    fn eq(&self, other: &Payload) -> (r: bool) {
        self.cargo == other.cargo
    }
}

impl vstd::std_specs::cmp::PartialEqSpecImpl for Payload {
    open spec fn obeys_eq_spec() -> bool {
        true
    }

    open spec fn eq_spec(&self, other: &Payload) -> bool {
        payload_eq(*self, *other)
    }
}

/// Equality test on optional payloads, usable from verified code.
pub fn opt_payloads_equal(a: &Option<Payload>, b: &Option<Payload>) -> (r: bool)
    ensures
        r == opt_payload_eq(*a, *b),
{
    match (a, b) {
        (None, None) => true,
        (Some(x), Some(y)) => x.cargo == y.cargo,
        _ => false,
    }
}

} // verus!
