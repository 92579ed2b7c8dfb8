//! Mean errors as exact fractions, with the total order that lets them serve
//! as keys when candidates are ranked.

use vstd::prelude::*;
use rand::XorShiftRng;
use crate::random::pick_random;

verus! {

/// The mean of `count` distances that add up to `total`. It stands for the
/// fraction `total / count`, so `count` is never zero.
#[derive(Clone, Copy, Debug)]
pub struct MeanError {
    total: u64,
    count: u32,
}

/// `a` is within ten percent of `best`: `a <= 1.1 * best`.
pub open spec fn spec_within_tolerance(a: nat, best: nat) -> bool {
    10 * a <= 11 * best
}

/// Decides whether `a` is within ten percent of `best`.
pub fn within_tolerance(a: u64, best: u64) -> (b: bool)
    ensures
        b == spec_within_tolerance(a as nat, best as nat),
{
    10 * (a as u128) <= 11 * (best as u128)
}

/// `t1 / c1 <= t2 / c2`, written without division.
pub open spec fn fraction_le(t1: nat, c1: nat, t2: nat, c2: nat) -> bool {
    t1 * c2 <= t2 * c1
}

/// `t1 / c1 <= 1.1 * (t2 / c2)`, written without division.
pub open spec fn fraction_within(t1: nat, c1: nat, t2: nat, c2: nat) -> bool {
    10 * (t1 * c2) <= 11 * (t2 * c1)
}

impl MeanError {
    /// The sum of the distances.
    pub closed spec fn total(&self) -> nat {
        self.total as nat
    }

    /// The number of distances; never zero in a well-formed mean.
    pub closed spec fn count(&self) -> nat {
        self.count as nat
    }

    /// The invariant: the mean is taken over at least one distance.
    pub open spec fn wf(&self) -> bool {
        self.count() > 0
    }

    /// `self <= other`, as fractions.
    pub open spec fn le(&self, other: &MeanError) -> bool {
        fraction_le(self.total(), self.count(), other.total(), other.count())
    }

    /// `self <= 1.1 * best`, as fractions.
    pub open spec fn within_tolerance(&self, best: &MeanError) -> bool {
        fraction_within(self.total(), self.count(), best.total(), best.count())
    }

    /// The mean of `count` distances that add up to `total`; `None` where
    /// `count` is zero, since nothing has a mean then.
    pub fn try_from(total: u64, count: u32) -> (r: Option<MeanError>)
        ensures
            r is Some <==> count > 0,
            r matches Some(m) ==> m.total() == total && m.count() == count && m.wf(),
    {
        if count == 0 {
            None
        } else {
            Some(MeanError { total, count })
        }
    }

    /// The sum of the distances.
    pub fn sum(&self) -> (t: u64)
        ensures
            t == self.total(),
    {
        self.total
    }

    /// The number of distances.
    pub fn samples(&self) -> (c: u32)
        ensures
            c == self.count(),
    {
        self.count
    }

    /// Decides `self <= other`.
    pub fn is_le(&self, other: &MeanError) -> (b: bool)
        ensures
            b == self.le(other),
    {
        assert(self.total * other.count <= 0xffff_ffff_ffff_ffff * 0xffff_ffff) by (nonlinear_arith)
            requires
                0 <= self.total <= 0xffff_ffff_ffff_ffff,
                0 <= other.count <= 0xffff_ffff,
        ;
        assert(other.total * self.count <= 0xffff_ffff_ffff_ffff * 0xffff_ffff) by (nonlinear_arith)
            requires
                0 <= other.total <= 0xffff_ffff_ffff_ffff,
                0 <= self.count <= 0xffff_ffff,
        ;
        (self.total as u128) * (other.count as u128) <= (other.total as u128) * (self.count as u128)
    }

    /// Decides `self <= 1.1 * best`.
    pub fn is_within_tolerance(&self, best: &MeanError) -> (b: bool)
        ensures
            b == self.within_tolerance(best),
    {
        assert(self.total * best.count <= 0xffff_ffff_ffff_ffff * 0xffff_ffff) by (nonlinear_arith)
            requires
                0 <= self.total <= 0xffff_ffff_ffff_ffff,
                0 <= best.count <= 0xffff_ffff,
        ;
        assert(best.total * self.count <= 0xffff_ffff_ffff_ffff * 0xffff_ffff) by (nonlinear_arith)
            requires
                0 <= best.total <= 0xffff_ffff_ffff_ffff,
                0 <= self.count <= 0xffff_ffff,
        ;
        10 * ((self.total as u128) * (best.count as u128)) <= 11 * ((best.total as u128) * (
        self.count as u128))
    }

    /// The order is total: of two means, one is no greater than the other,
    /// and each is no greater than itself.
    pub proof fn lemma_le_total(&self, other: &MeanError)
        ensures
            self.le(other) || other.le(self),
            self.le(self),
    {
    }

    /// The order is transitive.
    pub proof fn lemma_le_transitive(&self, b: &MeanError, c: &MeanError)
        requires
            self.wf(),
            b.wf(),
            c.wf(),
            self.le(b),
            b.le(c),
        ensures
            self.le(c),
    {
        lemma_fraction_chain(
            self.total() as int,
            self.count() as int,
            b.total() as int,
            b.count() as int,
            c.total() as int,
            c.count() as int,
            1,
            1,
        );
    }

    /// A mean is within ten percent of any mean that is no smaller.
    pub proof fn lemma_le_within(&self, other: &MeanError)
        requires
            self.le(other),
        ensures
            self.within_tolerance(other),
    {
    }

    /// What is within ten percent of a mean is within ten percent of every
    /// mean that is no smaller than that one.
    pub proof fn lemma_within_transitive(&self, best: &MeanError, c: &MeanError)
        requires
            self.wf(),
            best.wf(),
            c.wf(),
            self.within_tolerance(best),
            best.le(c),
        ensures
            self.within_tolerance(c),
    {
        lemma_fraction_chain(
            self.total() as int,
            self.count() as int,
            best.total() as int,
            best.count() as int,
            c.total() as int,
            c.count() as int,
            10,
            11,
        );
    }
}

/// From `p * a/b <= q * c/d` and `c/d <= e/f` follows `p * a/b <= q * e/f`,
/// all fractions written without division.
pub proof fn lemma_fraction_chain(a: int, b: int, c: int, d: int, e: int, f: int, p: int, q: int)
    requires
        0 <= a,
        0 < b,
        0 <= c,
        0 < d,
        0 <= e,
        0 < f,
        0 < p,
        0 < q,
        p * (a * d) <= q * (c * b),
        c * f <= e * d,
    ensures
        p * (a * f) <= q * (e * b),
{
    assert(p * (a * d) * f <= q * (c * b) * f) by (nonlinear_arith)
        requires
            p * (a * d) <= q * (c * b),
            0 < f,
    ;
    assert(q * b * (c * f) <= q * b * (e * d)) by (nonlinear_arith)
        requires
            c * f <= e * d,
            0 < q,
            0 < b,
    ;
    assert(p * (a * d) * f == (p * (a * f)) * d) by (nonlinear_arith);
    assert(q * (c * b) * f == q * b * (c * f)) by (nonlinear_arith);
    assert(q * b * (e * d) == (q * (e * b)) * d) by (nonlinear_arith);
    assert(p * (a * f) <= q * (e * b)) by (nonlinear_arith)
        requires
            (p * (a * f)) * d <= (q * (e * b)) * d,
            0 < d,
    ;
}

/// A place in the source that can be chosen, with the error of choosing it.
#[derive(Clone, Copy, Debug)]
pub struct Candidate {
    pub coords: (u32, u32),
    pub error: MeanError,
}

/// The place `(cx, cy)` is among `candidates`.
pub open spec fn spec_listed(candidates: Seq<Candidate>, cx: int, cy: int) -> bool {
    exists|k: int|
        0 <= k < candidates.len() && (#[trigger] candidates[k]).coords.0 == cx
            && candidates[k].coords.1 == cy
}

/// Those of `candidates` whose mean error is within ten percent of the
/// smallest.
pub fn near_best(candidates: &Vec<Candidate>) -> (kept: Vec<Candidate>)
    requires
        candidates@.len() > 0,
        forall|k: int| 0 <= k < candidates@.len() ==> (#[trigger] candidates@[k]).error.wf(),
    ensures
        kept@.len() > 0,
        forall|i: int|
            0 <= i < kept@.len() ==> candidates@.contains(#[trigger] kept@[i]),
        forall|i: int, k: int|
            0 <= i < kept@.len() && 0 <= k < candidates@.len() ==> (#[trigger] kept@[i]).error.within_tolerance(
                &(#[trigger] candidates@[k]).error,
            ),
        forall|k: int|
            0 <= k < candidates@.len() && (forall|m: int|
                0 <= m < candidates@.len() ==> candidates@[k].error.within_tolerance(
                    &(#[trigger] candidates@[m]).error,
                )) ==> kept@.contains(#[trigger] candidates@[k]),
{
    let n = candidates.len();
    let mut best = candidates[0].error;
    let ghost mut at: int = 0;
    let mut k: usize = 1;
    while k < n
        invariant
            n == candidates@.len(),
            1 <= k <= n,
            0 <= at < k,
            best == candidates@[at].error,
            forall|m: int| 0 <= m < n ==> (#[trigger] candidates@[m]).error.wf(),
            forall|m: int| 0 <= m < k ==> best.le(&(#[trigger] candidates@[m]).error),
        decreases n - k,
    {
        let e = candidates[k].error;
        if !best.is_le(&e) {
            proof {
                best.lemma_le_total(&e);
                assert forall|m: int| 0 <= m < k + 1 implies e.le(
                    &(#[trigger] candidates@[m]).error,
                ) by {
                    if m < k {
                        e.lemma_le_transitive(&best, &candidates@[m].error);
                    } else {
                        e.lemma_le_total(&e);
                    }
                }
                at = k as int;
            }
            best = e;
        }
        k += 1;
    }
    let mut kept: Vec<Candidate> = Vec::new();
    let mut k: usize = 0;
    while k < n
        invariant
            n == candidates@.len(),
            k <= n,
            0 <= at < n,
            best == candidates@[at].error,
            forall|m: int| 0 <= m < n ==> (#[trigger] candidates@[m]).error.wf(),
            forall|m: int| 0 <= m < n ==> best.le(&(#[trigger] candidates@[m]).error),
            forall|i: int| 0 <= i < kept@.len() ==> candidates@.contains(#[trigger] kept@[i]),
            forall|i: int|
                0 <= i < kept@.len() ==> (#[trigger] kept@[i]).error.within_tolerance(&best),
            forall|m: int|
                0 <= m < k && (#[trigger] candidates@[m]).error.within_tolerance(&best)
                    ==> kept@.contains(candidates@[m]),
        decreases n - k,
    {
        let c = candidates[k];
        let ghost before = kept@;
        if c.error.is_within_tolerance(&best) {
            kept.push(c);
            proof {
                assert(kept@[before.len() as int] == c);
                assert forall|m: int|
                    0 <= m < k + 1 && (#[trigger] candidates@[m]).error.within_tolerance(
                        &best,
                    ) implies kept@.contains(candidates@[m]) by {
                    if m < k {
                        let i = choose|i: int| 0 <= i < before.len() && before[i] == candidates@[m];
                        assert(kept@[i] == candidates@[m]);
                    }
                }
            }
        }
        k += 1;
    }
    proof {
        best.lemma_le_total(&best);
        best.lemma_le_within(&best);
        assert(kept@.contains(candidates@[at]));
        assert forall|i: int, k: int|
            0 <= i < kept@.len() && 0 <= k < candidates@.len() implies (#[trigger] kept@[i]).error.within_tolerance(
            &(#[trigger] candidates@[k]).error,
        ) by {
            let j = choose|j: int| 0 <= j < candidates@.len() && candidates@[j] == kept@[i];
            kept@[i].error.lemma_within_transitive(&best, &candidates@[k].error);
        }
        assert forall|k: int|
            0 <= k < candidates@.len() && (forall|m: int|
                0 <= m < candidates@.len() ==> candidates@[k].error.within_tolerance(
                    &(#[trigger] candidates@[m]).error,
                )) implies kept@.contains(#[trigger] candidates@[k]) by {
            assert(candidates@[k].error.within_tolerance(&candidates@[at].error));
        }
    }
    kept
}

/// One of `candidates` whose error is within ten percent of the smallest,
/// picked at random among all of those.
pub fn choose_among(candidates: &Vec<Candidate>, rng: &mut XorShiftRng) -> (chosen: Candidate)
    requires
        candidates@.len() > 0,
        forall|k: int| 0 <= k < candidates@.len() ==> (#[trigger] candidates@[k]).error.wf(),
    ensures
        candidates@.contains(chosen),
        forall|k: int|
            0 <= k < candidates@.len() ==> chosen.error.within_tolerance(
                &(#[trigger] candidates@[k]).error,
            ),
{
    let kept = near_best(candidates);
    let chosen = pick_random(rng, kept);
    proof {
        let at = choose|at: int| 0 <= at < kept@.len() && kept@[at] == chosen;
        assert(candidates@.contains(kept@[at]));
        assert forall|k: int| 0 <= k < candidates@.len() implies chosen.error.within_tolerance(
            &(#[trigger] candidates@[k]).error,
        ) by {
            assert(kept@[at].error.within_tolerance(&candidates@[k].error));
        }
    }
    chosen
}

} // verus!
