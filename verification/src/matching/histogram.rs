//! A vote counter that keeps track of its own mode.

use std::collections::HashMap;

use vstd::prelude::*;

use super::alignment;

verus! {

broadcast use vstd::std_specs::hash::group_hash_axioms;

/// Counts votes per frame shift and remembers the leading shift.
pub struct Histogram {
    counts: HashMap<i32, u128>,
    leader: Option<(i32, u128)>,
}

impl Histogram {
    /// Votes cast for shift `e` so far.
    pub closed spec fn count(self, e: int) -> nat {
        if i32::MIN <= e <= i32::MAX && self.counts@.contains_key(e as i32) {
            self.counts@[e as i32] as nat
        } else {
            0
        }
    }

    /// The counter as a function from shift to votes.
    pub open spec fn weight(self) -> spec_fn(int) -> nat {
        |e: int| self.count(e)
    }

    /// The remembered leader is the mode of the counts.
    pub closed spec fn wf(self) -> bool {
        match self.leader {
            Some((d, c)) => {
                &&& self.count(d as int) == c
                &&& alignment::is_mode(self.weight(), d as int)
            },
            None => forall|e: int| #[trigger] self.count(e) == 0,
        }
    }

    /// A counter without votes.
    pub fn new() -> (histogram: Self)
        ensures
            histogram.wf(),
            forall|e: int| #[trigger] histogram.count(e) == 0,
    {
        Histogram { counts: HashMap::new(), leader: None }
    }

    /// Adds one vote for `delta`.
    pub fn vote(&mut self, delta: i32)
        requires
            old(self).wf(),
            old(self).count(delta as int) < u128::MAX,
        ensures
            final(self).wf(),
            forall|e: int| #[trigger]
                final(self).count(e) == old(self).count(e) + if e == delta {
                    1nat
                } else {
                    0nat
                },
    {
        let before: u128 = match self.counts.get(&delta) {
            Some(c) => *c,
            None => 0,
        };
        let now: u128 = before + 1;
        self.counts.insert(delta, now);
        proof {
            assert forall|e: int| #[trigger]
                self.count(e) == old(self).count(e) + if e == delta {
                    1nat
                } else {
                    0nat
                } by {}
        }
        let leads: bool = match self.leader {
            Some((d, c)) => now > c || (now == c && delta < d),
            None => true,
        };
        if leads {
            self.leader = Some((delta, now));
        }
        proof {
            let old_weight = old(self).weight();
            let weight = self.weight();
            assert forall|e: int| #[trigger] weight(e) == self.count(e) by {}
            assert forall|e: int| #[trigger] old_weight(e) == old(self).count(e) by {}
            match old(self).leader {
                Some((d, c)) => {
                    let lead = (self.leader->0).0 as int;
                    assert(old_weight(d as int) == c);
                    assert forall|e: int| #[trigger] weight(e) <= weight(lead) by {
                        assert(old_weight(e) <= c);
                        assert(weight(lead) == self.count(lead));
                    }
                    assert forall|e: int| #[trigger] weight(e) == weight(lead) implies lead
                        <= e by {
                        assert(old_weight(e) <= c);
                        assert(old_weight(e) == c ==> d <= e);
                        assert(weight(lead) == self.count(lead));
                    }
                    assert(alignment::is_mode(weight, lead));
                },
                None => {
                    let lead = delta as int;
                    assert forall|e: int| #[trigger] weight(e) == if e == delta {
                        1nat
                    } else {
                        0nat
                    } by {
                        assert(old(self).count(e) == 0);
                    }
                    assert(alignment::is_mode(weight, lead));
                },
            }
        }
    }

    /// The shift with the most votes, and how many it has.
    pub fn mode(&self) -> (leader: Option<(i32, u128)>)
        requires
            self.wf(),
        ensures
            match leader {
                Some((d, c)) => alignment::mode(self.weight()) == Some(d as int) && c
                    == self.count(d as int),
                None => alignment::mode(self.weight()) is None,
            },
    {
        proof {
            match self.leader {
                Some((d, c)) => {
                    alignment::lemma_mode_is(self.weight(), d as int);
                },
                None => {
                    let weight = self.weight();
                    assert forall|e: int| #[trigger] weight(e) == 0 by {
                        assert(self.count(e) == 0);
                    }
                    alignment::lemma_no_mode(weight);
                },
            }
        }
        self.leader
    }
}

} // verus!
