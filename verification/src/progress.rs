//! Progress accounting for the fetch pipeline: a total, a completed
//! counter, and derived renderings (completion bar, ETA estimate).

use vstd::prelude::*;

verus! {

/// Progress state of one pipeline run: how many units exist in total and
/// how many have completed so far. The completed count never exceeds the
/// total.
pub struct Progress {
    pub total: usize,
    pub completed: usize,
}

impl Progress {
    /// The counter never runs past the total.
    pub open spec fn wf(self) -> bool {
        self.completed <= self.total
    }

    pub open spec fn spec_total(self) -> int {
        self.total as int
    }

    pub open spec fn spec_completed(self) -> int {
        self.completed as int
    }

    /// A fresh reporter for `total` units, with nothing completed yet.
    pub fn new(total: usize) -> (r: Progress)
        ensures
            r.wf(),
            r.spec_total() == total,
            r.spec_completed() == 0,
    {
        Progress { total, completed: 0 }
    }

    /// Record the completion of one more unit.
    pub fn inc(&mut self)
        requires
            old(self).wf(),
            old(self).spec_completed() < old(self).spec_total(),
        ensures
            final(self).wf(),
            final(self).spec_total() == old(self).spec_total(),
            final(self).spec_completed() == old(self).spec_completed() + 1,
    {
        self.completed = self.completed + 1;
    }

    /// Expected remaining time in the unit of `elapsed`:
    /// `elapsed * (total - completed) / max(completed, 1)`, saturated at
    /// `u64::MAX`.
    pub fn eta(&self, elapsed: u64) -> (r: u64)
        requires
            self.wf(),
        ensures
            r == if eta_spec(elapsed as int, self.spec_total(), self.spec_completed())
                > u64::MAX as int {
                u64::MAX as int
            } else {
                eta_spec(elapsed as int, self.spec_total(), self.spec_completed())
            },
    {
        let rem = (self.total - self.completed) as u128;
        let den: u128 = if self.completed == 0 {
            1
        } else {
            self.completed as u128
        };
        proof {
            vstd::arithmetic::mul::lemma_mul_upper_bound(
                elapsed as int,
                u64::MAX as int,
                rem as int,
                u64::MAX as int,
            );
        }
        let num = (elapsed as u128) * rem;
        let q = num / den;
        if q > u64::MAX as u128 {
            u64::MAX
        } else {
            q as u64
        }
    }

    /// A textual completion bar of `width` cells: the completed share of
    /// the total as `#`, the rest as `-`.
    pub fn render_bar(&self, width: usize) -> (r: Vec<u8>)
        requires
            self.wf(),
            self.spec_total() > 0,
        ensures
            r@.len() == width,
            forall|j: int|
                0 <= j < r@.len() ==> r@[j] == (if j < bar_fill(
                    self.spec_total(),
                    self.spec_completed(),
                    width as int,
                ) {
                    35u8
                } else {
                    45u8
                }),
    {
        proof {
            vstd::arithmetic::mul::lemma_mul_upper_bound(
                width as int,
                u64::MAX as int,
                self.completed as int,
                u64::MAX as int,
            );
            vstd::arithmetic::mul::lemma_mul_inequality(
                self.completed as int,
                self.total as int,
                width as int,
            );
            vstd::arithmetic::div_mod::lemma_div_is_ordered(
                self.completed as int * width as int,
                self.total as int * width as int,
                self.total as int,
            );
            vstd::arithmetic::div_mod::lemma_div_by_multiple(width as int, self.total as int);
            vstd::arithmetic::mul::lemma_mul_is_commutative(width as int, self.completed as int);
            vstd::arithmetic::mul::lemma_mul_is_commutative(width as int, self.total as int);
        }
        let fill = ((width as u128) * (self.completed as u128) / (self.total as u128)) as usize;
        proof {
            assert(fill == bar_fill(self.spec_total(), self.spec_completed(), width as int));
        }
        let mut r: Vec<u8> = Vec::new();
        let mut i: usize = 0;
        while i < width
            invariant
                i <= width,
                r@.len() == i,
                fill == bar_fill(self.spec_total(), self.spec_completed(), width as int),
                forall|j: int|
                    0 <= j < i ==> r@[j] == (if j < fill {
                        35u8
                    } else {
                        45u8
                    }),
            decreases width - i,
        {
            if i < fill {
                r.push(35);
            } else {
                r.push(45);
            }
            i = i + 1;
        }
        r
    }
}

/// The ETA estimate: elapsed time scaled by the remaining share of units,
/// guarded against a zero completed count.
pub open spec fn eta_spec(elapsed: int, total: int, completed: int) -> int {
    elapsed * (total - completed) / (if completed == 0 {
        1int
    } else {
        completed
    })
}

/// How many cells of a `width`-cell bar are filled: the completed share
/// of the total, rounded down.
pub open spec fn bar_fill(total: int, completed: int, width: int) -> int {
    width * completed / total
}

} // verus!
