//! Per-item counts that remember the order in which items were first seen.
use vstd::prelude::*;

use std::collections::HashMap;

use crate::cost::fits;

verus! {

/// Per-item counts, with the items in the order they were first counted.
pub struct Tally {
    pub counts: HashMap<i32, i32>,
    pub order: Vec<i32>,
}

/// Mathematical form of a [`Tally`]: the counts and the order of the items.
pub type TallyModel = (Map<i32, i32>, Seq<i32>);

impl View for Tally {
    type V = TallyModel;

    open spec fn view(&self) -> TallyModel {
        (self.counts@, self.order@)
    }
}

/// `acc` with `v` more units of `k`, when the sum fits.
pub open spec fn add_need(acc: TallyModel, k: i32, v: int) -> Option<TallyModel> {
    let cur = if acc.0.contains_key(k) {
        acc.0[k] as int
    } else {
        0
    };
    if fits(cur + v) {
        Some(
            (
                acc.0.insert(k, (cur + v) as i32),
                if acc.0.contains_key(k) {
                    acc.1
                } else {
                    acc.1.push(k)
                },
            ),
        )
    } else {
        None
    }
}

/// An empty tally.
pub open spec fn no_counts() -> TallyModel {
    (Map::empty(), Seq::empty())
}

impl Tally {
    /// An empty tally.
    pub fn new() -> (r: Tally)
        ensures
            r@ == no_counts(),
    {
        Tally { counts: HashMap::new(), order: Vec::new() }
    }

    /// Adds `v` units of `k`; `false` when the count would overflow.
    pub fn add(&mut self, k: i32, v: i32) -> (r: bool)
        ensures
            r == add_need(old(self)@, k, v as int) is Some,
            r ==> final(self)@ == add_need(old(self)@, k, v as int)->0,
    {
        let (cur, seen): (i32, bool) = match self.counts.get(&k) {
            Some(c) => (*c, true),
            None => (0, false),
        };
        match cur.checked_add(v) {
            Some(t) => {
                self.counts.insert(k, t);
                if !seen {
                    self.order.push(k);
                }
                true
            },
            None => false,
        }
    }
}

} // verus!
