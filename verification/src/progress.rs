//! Progress of an exploration and the context of a running task.

use crate::colors::colored_vertex_set;
use crate::colors::vertex_cardinality;
use crate::mass::Mass;
use biodivine_lib_param_bn::symbolic_async_graph::GraphColoredVertices;
use vstd::prelude::*;

verus! {

/// The share of the work that is done, in hundredths of a percent: all of it
/// where there never was any, none of it where more remains than there was.
pub open spec fn progress_of(total: nat, remaining: nat) -> nat {
    if total == 0 {
        10000
    } else if remaining >= total {
        0
    } else {
        ((total - remaining) * 10000 / total as int) as nat
    }
}

/// The decimal digit of a number below ten.
pub open spec fn digit(d: nat) -> char {
    if d == 0 {
        '0'
    } else if d == 1 {
        '1'
    } else if d == 2 {
        '2'
    } else if d == 3 {
        '3'
    } else if d == 4 {
        '4'
    } else if d == 5 {
        '5'
    } else if d == 6 {
        '6'
    } else if d == 7 {
        '7'
    } else if d == 8 {
        '8'
    } else {
        '9'
    }
}

/// A share in hundredths of a percent, written as a percentage with two
/// decimals: `37.50` for 3750.
pub open spec fn percent_text(share: nat) -> Seq<char> {
    let whole = share / 100;
    let cents = share % 100;
    let lead = if whole >= 100 {
        seq![digit(whole / 100), digit(whole / 10 % 10), digit(whole % 10)]
    } else if whole >= 10 {
        seq![digit(whole / 10), digit(whole % 10)]
    } else {
        seq![digit(whole)]
    };
    lead + seq!['.', digit(cents / 10), digit(cents % 10)]
}

/// `String::from_iter` of std on a vector of characters: the string of those
/// characters, in their order.
#[verifier::external_body]
fn string_of(chars: Vec<char>) -> (r: String)
    ensures
        r@ == chars@,
{
    String::from_iter(chars)
}

/// The decimal digit of a number below ten.
fn digit_of(d: u32) -> (r: char)
    requires
        d < 10,
    ensures
        r == digit(d as nat),
{
    if d == 0 {
        '0'
    } else if d == 1 {
        '1'
    } else if d == 2 {
        '2'
    } else if d == 3 {
        '3'
    } else if d == 4 {
        '4'
    } else if d == 5 {
        '5'
    } else if d == 6 {
        '6'
    } else if d == 7 {
        '7'
    } else if d == 8 {
        '8'
    } else {
        '9'
    }
}

/// How much of an exploration there is and how much of it remains.
pub struct ProgressTracker {
    total: Mass,
    remaining: Mass,
}

impl ProgressTracker {
    /// The size of the whole exploration.
    pub closed spec fn total(&self) -> nat {
        self.total@
    }

    /// The size of what remains to be explored.
    pub closed spec fn remaining(&self) -> nat {
        self.remaining@
    }

    /// A tracker of an exploration of size zero.
    pub fn new() -> (r: ProgressTracker)
        ensures
            r.total() == 0,
            r.remaining() == 0,
    {
        ProgressTracker { total: Mass::zero(), remaining: Mass::zero() }
    }

    /// A copy of the tracker.
    pub fn duplicate(&self) -> (r: ProgressTracker)
        ensures
            r.total() == self.total(),
            r.remaining() == self.remaining(),
    {
        ProgressTracker { total: self.total.duplicate(), remaining: self.remaining.duplicate() }
    }

    /// Starts over with an exploration of the given size, all of which remains.
    pub fn reset(&mut self, size: &Mass)
        ensures
            final(self).total() == size@,
            final(self).remaining() == size@,
    {
        self.total = size.duplicate();
        self.remaining = size.duplicate();
    }

    /// Records the size of what remains. The size of the whole stays.
    pub fn set_remaining(&mut self, remaining: &Mass)
        ensures
            final(self).total() == old(self).total(),
            final(self).remaining() == remaining@,
    {
        self.remaining = remaining.duplicate();
    }

    /// Starts over with the exploration of a universe of coloured vertices,
    /// all of which remains.
    pub fn init_from_graph(&mut self, universe: &GraphColoredVertices)
        ensures
            final(self).total() == colored_vertex_set(*universe).len(),
            final(self).remaining() == colored_vertex_set(*universe).len(),
    {
        let size = Mass::from_digits(vertex_cardinality(universe));
        self.reset(&size);
    }

    /// Records the set that remains to be explored. The size of the whole stays.
    pub fn update_remaining(&mut self, remaining: &GraphColoredVertices)
        ensures
            final(self).total() == old(self).total(),
            final(self).remaining() == colored_vertex_set(*remaining).len(),
    {
        let size = Mass::from_digits(vertex_cardinality(remaining));
        self.set_remaining(&size);
    }

    /// Whether at least `share` hundredths of a percent of the work are done.
    fn done_at_least(&self, share: u32) -> (r: bool)
        ensures
            r == (share * self.total() + 10000 * self.remaining() <= 10000 * self.total()),
    {
        let needed = self.total.times(share).plus(&self.remaining.times(10000));
        proof {
            assert(self.total() * share == share * self.total()) by (nonlinear_arith);
            assert(self.remaining() * 10000 == 10000 * self.remaining()) by (nonlinear_arith);
            assert(self.total() * 10000 == 10000 * self.total()) by (nonlinear_arith);
        }
        self.total.times(10000).at_least(&needed)
    }

    /// The share of the work that is done, in hundredths of a percent.
    pub fn get_percent(&self) -> (r: u32)
        ensures
            r == progress_of(self.total(), self.remaining()),
            r <= 10000,
    {
        if self.total.is_zero() {
            return 10000;
        }
        if self.remaining.at_least(&self.total) {
            return 0;
        }
        let ghost whole = self.total() as int;
        let ghost left = self.remaining() as int;
        let mut low: u32 = 0;
        let mut high: u32 = 10001;
        proof {
            assert(0 * whole + 10000 * left <= 10000 * whole) by (nonlinear_arith)
                requires
                    left < whole,
            ;
            assert(10001 * whole + 10000 * left > 10000 * whole) by (nonlinear_arith)
                requires
                    whole > 0,
                    left >= 0,
            ;
        }
        while high - low > 1
            invariant
                low < high <= 10001,
                whole == self.total(),
                left == self.remaining(),
                0 <= left < whole,
                low * whole + 10000 * left <= 10000 * whole,
                high * whole + 10000 * left > 10000 * whole,
            decreases high - low,
        {
            let middle: u32 = low + (high - low) / 2;
            if self.done_at_least(middle) {
                low = middle;
            } else {
                high = middle;
            }
        }
        proof {
            let done = (whole - left) * 10000;
            assert(low * whole <= done < low * whole + whole) by (nonlinear_arith)
                requires
                    low * whole + 10000 * left <= 10000 * whole,
                    (low + 1) * whole + 10000 * left > 10000 * whole,
                    done == (whole - left) * 10000,
            ;
            vstd::arithmetic::div_mod::lemma_fundamental_div_mod_converse(
                done,
                whole,
                low as int,
                done - low * whole,
            );
        }
        low
    }

    /// The share of the work that is done, as a percentage with two decimals.
    pub fn get_percent_string(&self) -> (r: String)
        ensures
            r@ == percent_text(progress_of(self.total(), self.remaining())),
    {
        let share: u32 = self.get_percent();
        let whole: u32 = share / 100;
        let cents: u32 = share % 100;
        let mut chars: Vec<char> = Vec::new();
        if whole >= 100 {
            chars.push(digit_of(whole / 100));
            chars.push(digit_of(whole / 10 % 10));
            chars.push(digit_of(whole % 10));
        } else if whole >= 10 {
            chars.push(digit_of(whole / 10));
            chars.push(digit_of(whole % 10));
        } else {
            chars.push(digit_of(whole));
        }
        chars.push('.');
        chars.push(digit_of(cents / 10));
        chars.push(digit_of(cents % 10));
        proof {
            assert(chars@ =~= percent_text(share as nat));
        }
        string_of(chars)
    }

    /// Whether nothing remains.
    pub fn is_finished(&self) -> (r: bool)
        ensures
            r == (self.remaining() == 0),
    {
        self.remaining.is_zero()
    }
}

/// What a running task carries along: whether it was asked to stop, and its
/// progress.
pub struct GraphTaskContext {
    cancelled: bool,
    progress: ProgressTracker,
}

impl GraphTaskContext {
    /// Whether the task was asked to stop.
    pub closed spec fn cancelled(&self) -> bool {
        self.cancelled
    }

    /// The progress of the task.
    pub closed spec fn tracker(&self) -> ProgressTracker {
        self.progress
    }

    /// The context of a task that was not asked to stop, with nothing to explore.
    pub fn new() -> (r: GraphTaskContext)
        ensures
            !r.cancelled(),
            r.tracker().total() == 0,
            r.tracker().remaining() == 0,
    {
        GraphTaskContext { cancelled: false, progress: ProgressTracker::new() }
    }

    /// A copy of the context.
    pub fn duplicate(&self) -> (r: GraphTaskContext)
        ensures
            r.cancelled() == self.cancelled(),
            r.tracker().total() == self.tracker().total(),
            r.tracker().remaining() == self.tracker().remaining(),
    {
        GraphTaskContext { cancelled: self.cancelled, progress: self.progress.duplicate() }
    }

    /// Starts the task over: the exploration of a universe of coloured
    /// vertices, all of which remains, and no request to stop.
    pub fn restart(&mut self, universe: &GraphColoredVertices)
        ensures
            !final(self).cancelled(),
            final(self).tracker().total() == colored_vertex_set(*universe).len(),
            final(self).tracker().remaining() == colored_vertex_set(*universe).len(),
    {
        self.progress.init_from_graph(universe);
        self.cancelled = false;
    }

    /// Whether the task was asked to stop.
    pub fn is_cancelled(&self) -> (r: bool)
        ensures
            r == self.cancelled(),
    {
        self.cancelled
    }

    /// Asks the task to stop. The result says whether this call did so:
    /// it is false where the task had been asked before.
    pub fn cancel(&mut self) -> (r: bool)
        ensures
            final(self).cancelled(),
            r == !old(self).cancelled(),
            final(self).tracker() == old(self).tracker(),
    {
        let first = !self.cancelled;
        self.cancelled = true;
        first
    }

    /// Records the set that remains to be explored.
    pub fn update_remaining(&mut self, remaining: &GraphColoredVertices)
        ensures
            final(self).cancelled() == old(self).cancelled(),
            final(self).tracker().total() == old(self).tracker().total(),
            final(self).tracker().remaining() == colored_vertex_set(*remaining).len(),
    {
        self.progress.update_remaining(remaining);
    }

    /// The progress of the task.
    pub fn progress(&self) -> (r: &ProgressTracker)
        ensures
            *r == self.tracker(),
    {
        &self.progress
    }
}

} // verus!
