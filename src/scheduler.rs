//! The decision part of a reduce-on-plateau learning-rate policy. The caller
//! compares each observed metric with the best one seen and reports whether
//! it improved; the policy says when the learning rate is to be decayed.

use vstd::prelude::*;

verus! {

/// The patience used when a non-positive one is given.
pub const DEFAULT_PATIENCE: u64 = 5;

/// Counts consecutive observations without improvement and calls for a decay
/// each time the count reaches the patience.
pub struct Plateau {
    patience: u64,
    wait: u64,
}

/// The number of observations at the end of `flags` that did not improve.
pub open spec fn trailing_misses(flags: Seq<bool>) -> nat
    decreases flags.len(),
{
    if flags.len() == 0 || flags.last() {
        0
    } else {
        trailing_misses(flags.drop_last()) + 1
    }
}

/// Whether the last observation of `flags` calls for a decay under `patience`.
pub open spec fn decays_at_last(patience: nat, flags: Seq<bool>) -> bool {
    flags.len() > 0 && !flags.last() && trailing_misses(flags) % patience == 0
}

impl Plateau {
    /// The patience in force.
    pub closed spec fn patience_of(&self) -> nat {
        self.patience as nat
    }

    /// Observations without improvement since the last improvement or decay.
    pub closed spec fn waiting(&self) -> nat {
        self.wait as nat
    }

    /// The patience is positive and the count is below it.
    pub closed spec fn wf(&self) -> bool {
        0 < self.patience && self.wait < self.patience
    }

    /// A policy with the given patience; a non-positive patience is replaced
    /// by the default of five.
    pub fn new(patience: i64) -> (r: Plateau)
        ensures
            r.wf(),
            r.patience_of() == (if patience <= 0 {
                DEFAULT_PATIENCE as int
            } else {
                patience as int
            }),
            r.waiting() == 0,
    {
        let p: u64 = if patience <= 0 {
            DEFAULT_PATIENCE
        } else {
            patience as u64
        };
        Plateau { patience: p, wait: 0 }
    }

    /// The patience in force.
    pub fn patience(&self) -> (r: u64)
        ensures
            r == self.patience_of(),
    {
        self.patience
    }

    /// Records one observation and returns whether the learning rate is to
    /// be decayed now. An improvement resets the count; otherwise the count
    /// grows, and on reaching the patience it resets and a decay is due.
    pub fn step(&mut self, improved: bool) -> (decay: bool)
        requires
            old(self).wf(),
        ensures
            final(self).wf(),
            final(self).patience_of() == old(self).patience_of(),
            improved ==> !decay && final(self).waiting() == 0,
            !improved && old(self).waiting() + 1 == old(self).patience_of() ==> decay
                && final(self).waiting() == 0,
            !improved && old(self).waiting() + 1 < old(self).patience_of() ==> !decay
                && final(self).waiting() == old(self).waiting() + 1,
    {
        if improved {
            self.wait = 0;
            false
        } else {
            self.wait = self.wait + 1;
            if self.wait == self.patience {
                self.wait = 0;
                true
            } else {
                false
            }
        }
    }
}

/// The count kept by a fresh policy with `patience` after the observations
/// `flags` (`true` for an improvement), as `Plateau::step` updates it.
pub open spec fn wait_after(patience: nat, flags: Seq<bool>) -> nat
    decreases flags.len(),
{
    if flags.len() == 0 {
        0
    } else {
        let w = wait_after(patience, flags.drop_last());
        if flags.last() || w + 1 == patience {
            0
        } else {
            w + 1
        }
    }
}

/// Whether `Plateau::step` calls for a decay on the last of `flags`.
pub open spec fn decay_after(patience: nat, flags: Seq<bool>) -> bool {
    flags.len() > 0 && !flags.last() && wait_after(patience, flags.drop_last()) + 1 == patience
}

/// Decays come only in whole patience windows: the count is the length of
/// the current run of non-improving observations modulo the patience, and a
/// decay is called exactly when that run reaches a multiple of the patience.
pub proof fn law_decay_in_whole_windows(patience: nat, flags: Seq<bool>)
    requires
        patience > 0,
    ensures
        wait_after(patience, flags) == trailing_misses(flags) % patience,
        wait_after(patience, flags) < patience,
        decay_after(patience, flags) == decays_at_last(patience, flags),
    decreases flags.len(),
{
    let p = patience as int;
    if flags.len() == 0 {
        vstd::arithmetic::div_mod::lemma_fundamental_div_mod_converse(0, p, 0, 0);
    } else {
        let prev = flags.drop_last();
        law_decay_in_whole_windows(patience, prev);
        let t = trailing_misses(prev) as int;
        let w = wait_after(patience, prev) as int;
        let q = t / p;
        vstd::arithmetic::div_mod::lemma_fundamental_div_mod(t, p);
        if flags.last() {
            vstd::arithmetic::div_mod::lemma_fundamental_div_mod_converse(0, p, 0, 0);
        } else if w + 1 == p {
            assert(t + 1 == (q + 1) * p + 0) by (nonlinear_arith)
                requires
                    t == p * q + w,
                    w + 1 == p,
            ;
            vstd::arithmetic::div_mod::lemma_fundamental_div_mod_converse(t + 1, p, q + 1, 0);
        } else {
            assert(t + 1 == q * p + (w + 1)) by (nonlinear_arith)
                requires
                    t == p * q + w,
            ;
            vstd::arithmetic::div_mod::lemma_fundamental_div_mod_converse(t + 1, p, q, w + 1);
        }
    }
}

} // verus!
