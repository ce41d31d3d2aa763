//! Frontiers over totally ordered `u64` times.
//!
//! An antichain is a set of pairwise incomparable times; over a total order it
//! is therefore empty or a single least element.  Semantically a frontier says
//! that no future message will arrive at a time less than some element of it.

use vstd::prelude::*;

verus! {

/// A frontier over totally ordered `u64` times: empty, or one least time.
///
/// The view of an antichain is `None` when it is empty and `Some(t)` when `t`
/// is its single element.
#[derive(Clone, Debug)]
pub struct Antichain {
    elements: Vec<u64>,
}

impl View for Antichain {
    type V = Option<u64>;

    closed spec fn view(&self) -> Option<u64> {
        if self.elements.len() == 0 {
            None
        } else {
            Some(self.elements[0])
        }
    }
}

/// Whether frontier `f` has an element less than or equal to `t`.
pub open spec fn spec_le(f: Option<u64>, t: u64) -> bool {
    match f {
        Option::Some(e) => e <= t,
        Option::None => false,
    }
}

/// Whether frontier `f` has an element strictly less than `t`.
pub open spec fn spec_lt(f: Option<u64>, t: u64) -> bool {
    match f {
        Option::Some(e) => e < t,
        Option::None => false,
    }
}

/// Whether frontier `a` dominates frontier `b`: every element of `b` is
/// greater than or equal to some element of `a`.
pub open spec fn spec_dominates(a: Option<u64>, b: Option<u64>) -> bool {
    match b {
        Option::None => true,
        Option::Some(eb) => match a {
            Option::Some(ea) => ea <= eb,
            Option::None => false,
        },
    }
}

impl Antichain {
    /// An empty antichain.
    pub fn new() -> (r: Self)
        ensures
            r@ is None,
    {
        Antichain { elements: Vec::new() }
    }

    /// An antichain holding the single time `t`.
    pub fn from_elem(t: u64) -> (r: Self)
        ensures
            r@ == Some(t),
    {
        let mut elements = Vec::new();
        elements.push(t);
        Antichain { elements }
    }

    /// Insert `t`, keeping only minimal elements: over a total order the
    /// result holds the least of the present times.
    pub fn insert(&mut self, t: u64)
        ensures
            final(self)@ == (match old(self)@ {
                Option::None => Some(t),
                Option::Some(m) => if t < m { Some(t) } else { Some(m) },
            }),
    {
        if self.elements.len() == 0 {
            self.elements.push(t);
        } else if t < self.elements[0] {
            self.elements.clear();
            self.elements.push(t);
        }
    }

    /// Whether this frontier is empty.
    pub fn is_empty(&self) -> (r: bool)
        ensures
            r == (self@ is None),
    {
        self.elements.len() == 0
    }

    /// The least time of the frontier, if any.
    pub fn frontier_time(&self) -> (r: Option<u64>)
        ensures
            r == self@,
    {
        if self.elements.len() == 0 {
            None
        } else {
            Some(self.elements[0])
        }
    }

    /// Whether some element of the frontier is less than or equal to `t`:
    /// work at time `t` may still arrive.
    pub fn less_equal(&self, t: u64) -> (r: bool)
        ensures
            r == spec_le(self@, t),
    {
        self.elements.len() > 0 && self.elements[0] <= t
    }

    /// Whether some element of the frontier is strictly less than `t`.
    pub fn less_than(&self, t: u64) -> (r: bool)
        ensures
            r == spec_lt(self@, t),
    {
        self.elements.len() > 0 && self.elements[0] < t
    }

    /// Whether this frontier dominates `other`.
    pub fn dominates(&self, other: &Antichain) -> (r: bool)
        ensures
            r == spec_dominates(self@, other@),
    {
        if other.elements.len() == 0 {
            true
        } else if self.elements.len() == 0 {
            false
        } else {
            self.elements[0] <= other.elements[0]
        }
    }
}

} // verus!
