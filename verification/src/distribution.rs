//! The probability distribution over reachable states.
//!
//! [`ReachableStates`] maps state fingerprints to exact fixed-point
//! probabilities. Appending accumulates mass under a fingerprint and
//! refuses any accumulation beyond one whole unit, so the total mass
//! bookkeeping below is exact: no tolerance is needed anywhere.

use vstd::prelude::*;

use crate::alist::{
    alist_contains,
    alist_distinct,
    alist_find,
    find_index,
    lemma_distinct_insert,
    lemma_distinct_update,
    lemma_find_absent,
    lemma_find_at,
    lemma_find_index,
};
use crate::errors::OutOfRangeError;
use crate::state::StateHash;
use crate::units::{Entropy, Probability, SCALE};

verus! {

/// The abstraction of a distribution: its (fingerprint, mass) pairs.
pub type DistView = Seq<(u64, u64)>;

/// The total mass held by a distribution view.
pub open spec fn mass_sum(s: DistView) -> int
    decreases s.len(),
{
    if s.len() == 0 {
        0
    } else {
        s[0].1 + mass_sum(s.drop_first())
    }
}

/// Total mass is never negative.
pub proof fn lemma_mass_sum_nonneg(s: DistView)
    ensures
        mass_sum(s) >= 0,
    decreases s.len(),
{
    if s.len() > 0 {
        lemma_mass_sum_nonneg(s.drop_first());
    }
}

/// Appending a pair adds its mass.
pub proof fn lemma_mass_sum_push(s: DistView, h: u64, p: u64)
    ensures
        mass_sum(s.push((h, p))) == mass_sum(s) + p,
    decreases s.len(),
{
    if s.len() == 0 {
        assert(s.push((h, p)).drop_first() =~= Seq::<(u64, u64)>::empty());
        assert(s.push((h, p))[0] == (h, p));
        assert(mass_sum(Seq::<(u64, u64)>::empty()) == 0);
    } else {
        assert(s.push((h, p)).drop_first() =~= s.drop_first().push((h, p)));
        lemma_mass_sum_push(s.drop_first(), h, p);
    }
}

/// Replacing the mass at `i` shifts the total by the difference.
pub proof fn lemma_mass_sum_update(s: DistView, i: int, v: u64)
    requires
        0 <= i < s.len(),
    ensures
        mass_sum(s.update(i, (s[i].0, v))) == mass_sum(s) - s[i].1 + v,
    decreases i,
{
    let t = s.update(i, (s[i].0, v));
    if i == 0 {
        assert(t.drop_first() =~= s.drop_first());
        assert(t[0] == (s[0].0, v));
    } else {
        assert(t.drop_first() =~= s.drop_first().update(i - 1, (s.drop_first()[i - 1].0, v)));
        lemma_mass_sum_update(s.drop_first(), i - 1, v);
        assert(t[0] == s[0]);
    }
}

/// Removing the pair at `i` takes its mass back out of the total.
pub proof fn lemma_mass_sum_remove(s: DistView, i: int)
    requires
        0 <= i < s.len(),
    ensures
        mass_sum(s) == s[i].1 + mass_sum(s.remove(i)),
    decreases i,
{
    if i == 0 {
        assert(s.remove(0) =~= s.drop_first());
    } else {
        assert(s.remove(i).drop_first() =~= s.drop_first().remove(i - 1));
        lemma_mass_sum_remove(s.drop_first(), i - 1);
        assert(s.remove(i)[0] == s[0]);
    }
}

/// No single entry outweighs the total.
pub proof fn lemma_entry_le_mass_sum(s: DistView, i: int)
    requires
        0 <= i < s.len(),
    ensures
        s[i].1 <= mass_sum(s),
    decreases i,
{
    if i == 0 {
        lemma_mass_sum_nonneg(s.drop_first());
    } else {
        lemma_entry_le_mass_sum(s.drop_first(), i - 1);
    }
}

/// What appending `p` under `h` does to a distribution view: a fresh pair
/// is pushed, an existing one accumulates, and an accumulation beyond
/// `SCALE` is refused with the offending total.
pub open spec fn dist_append(s: DistView, h: u64, p: u64) -> Result<DistView, int> {
    if !alist_contains(s, h) {
        Ok(s.push((h, p)))
    } else {
        match alist_find(s, h) {
            Some(q) => if q + p > SCALE {
                Err(q + p)
            } else {
                Ok(s.update(find_index(s, h), (h, (q + p) as u64)))
            },
            None => Ok(s),
        }
    }
}

/// Folding a whole view into `dst`, pair by pair, stopping at the first
/// refused accumulation.
pub open spec fn dist_merge(dst: DistView, src: DistView) -> Result<DistView, int>
    decreases src.len(),
{
    if src.len() == 0 {
        Ok(dst)
    } else {
        match dist_append(dst, src[0].0, src[0].1) {
            Ok(d) => dist_merge(d, src.drop_first()),
            Err(v) => Err(v),
        }
    }
}

/// The current probability distribution over visited states, addressed by
/// fingerprint. Total mass is expected to stay at one whole unit across
/// advance-steps; each single entry is kept at or below one unit here.
#[derive(Debug, PartialEq)]
pub struct ReachableStates {
    states: Vec<(StateHash, Probability)>,
}

impl View for ReachableStates {
    type V = DistView;

    open spec fn view(&self) -> DistView {
        self.rep()
    }
}

impl Clone for ReachableStates {
    #[verifier::loop_isolation(false)]
    fn clone(&self) -> (r: Self)
        ensures
            r@ == self@,
            r.wf() == self.wf(),
    {
        let mut states: Vec<(StateHash, Probability)> = Vec::new();
        let mut i: usize = 0;
        while i < self.states.len()
            invariant
                i <= self.states@.len(),
                states@.map_values(|p: (StateHash, Probability)| (p.0@, p.1@)) =~= self@.take(
                    i as int,
                ),
            decreases self.states@.len() - i,
        {
            let pair = self.states[i];
            states.push(pair);
            proof {
                assert(states@.map_values(|p: (StateHash, Probability)| (p.0@, p.1@)) =~= self@
                    .take(i + 1));
            }
            i = i + 1;
        }
        proof {
            assert(self@.take(self@.len() as int) =~= self@);
        }
        ReachableStates { states }
    }
}

impl ReachableStates {
    /// The stored pairs, abstracted; the body stays private to this
    /// module.
    pub closed spec fn rep(&self) -> DistView {
        self.states@.map_values(|p: (StateHash, Probability)| (p.0@, p.1@))
    }

    /// Whether fingerprints are distinct and every mass is at most one
    /// whole unit.
    pub open spec fn wf(&self) -> bool {
        alist_distinct(self@) && forall|i: int| 0 <= i < self@.len() ==> (#[trigger] self@[i]).1
            <= SCALE
    }

    /// An empty distribution.
    pub fn new() -> (r: Self)
        ensures
            r@ == DistView::empty(),
            r.wf(),
    {
        let r = ReachableStates { states: Vec::new() };
        proof {
            assert(r@ =~= DistView::empty());
        }
        r
    }

    /// Accumulates `state_probability` under `state_hash` exactly as
    /// [`dist_append`] says: fresh fingerprints are appended, existing
    /// ones accumulate, and a total beyond one whole unit is refused and
    /// leaves the distribution unchanged.
    #[verifier::loop_isolation(false)]
    pub fn append_state(&mut self, state_hash: StateHash, state_probability: Probability) -> (r:
        Result<(), OutOfRangeError<u64>>)
        requires
            old(self).wf(),
        ensures
            final(self).wf(),
            match r {
                Ok(u) => dist_append(old(self)@, state_hash@, state_probability@) == Ok::<
                    DistView,
                    int,
                >(final(self)@) && mass_sum(final(self)@) == mass_sum(old(self)@)
                    + state_probability@,
                Err(e) => dist_append(old(self)@, state_hash@, state_probability@) == Err::<
                    DistView,
                    int,
                >(e.value as int) && final(self)@ == old(self)@ && e.min == 0 && e.max == SCALE,
            },
    {
        let ghost s = self@;
        let mut i: usize = 0;
        while i < self.states.len()
            invariant
                i <= s.len(),
                s == self@,
                old(self) == self,
                forall|j: int| 0 <= j < i ==> (#[trigger] s[j]).0 != state_hash@,
            decreases s.len() - i,
        {
            if self.states[i].0 == state_hash {
                proof {
                    assert(s[i as int].0 == state_hash@);
                    assert(alist_contains(s, state_hash@));
                    lemma_find_index(s, state_hash@);
                    assert(find_index(s, state_hash@) == i);
                }
                let existing = self.states[i].1;
                match existing.checked_add(state_probability) {
                    Ok(np) => {
                        self.states[i] = (state_hash, np);
                        proof {
                            assert(self@ =~= s.update(i as int, (s[i as int].0, np@)));
                            lemma_distinct_update(s, i as int, np@);
                            lemma_mass_sum_update(s, i as int, np@);
                        }
                        return Ok(());
                    },
                    Err(e) => {
                        return Err(e);
                    },
                }
            }
            i = i + 1;
        }
        proof {
            assert(!alist_contains(s, state_hash@));
            lemma_distinct_insert(s, state_hash@, state_probability@);
            lemma_mass_sum_push(s, state_hash@, state_probability@);
        }
        let ghost pb = state_probability@;
        let parts = state_probability.parts();
        self.states.push((state_hash, state_probability));
        proof {
            assert(self@ =~= s.push((state_hash@, pb)));
        }
        Ok(())
    }

    /// Folds every pair of `states` into this distribution, stopping at
    /// the first accumulation beyond one whole unit; on success the total
    /// mass is the exact sum of both totals.
    #[verifier::loop_isolation(false)]
    pub fn append_states(&mut self, states: &ReachableStates) -> (r: Result<
        (),
        OutOfRangeError<u64>,
    >)
        requires
            old(self).wf(),
        ensures
            final(self).wf(),
            match r {
                Ok(u) => dist_merge(old(self)@, states@) == Ok::<DistView, int>(final(self)@)
                    && mass_sum(final(self)@) == mass_sum(old(self)@) + mass_sum(states@),
                Err(e) => dist_merge(old(self)@, states@) == Err::<DistView, int>(e.value as int),
            },
    {
        let ghost dst = self@;
        let ghost src = states@;
        let mut i: usize = 0;
        proof {
            assert(src.skip(0) =~= src);
            assert(src.take(0) =~= Seq::<(u64, u64)>::empty());
        }
        while i < states.states.len()
            invariant
                i <= src.len(),
                src == states@,
                dst == old(self)@,
                self.wf(),
                dist_merge(dst, src) == dist_merge(self@, src.skip(i as int)),
                mass_sum(self@) == mass_sum(dst) + mass_sum(src.take(i as int)),
            decreases src.len() - i,
        {
            let h = states.states[i].0;
            let p = states.states[i].1;
            let ghost cur = self@;
            proof {
                assert(src.skip(i as int)[0] == src[i as int]);
            }
            let res = self.append_state(h, p);
            match res {
                Ok(u) => {
                    proof {
                        assert(src.skip(i as int).drop_first() =~= src.skip(i + 1));
                        assert(src.take(i + 1) =~= src.take(i as int).push(src[i as int]));
                        lemma_mass_sum_push(src.take(i as int), src[i as int].0, src[i as int].1);
                    }
                },
                Err(e) => {
                    return Err(e);
                },
            }
            i = i + 1;
        }
        proof {
            assert(src.skip(src.len() as int) =~= Seq::<(u64, u64)>::empty());
            assert(src.take(src.len() as int) =~= src);
        }
        Ok(())
    }

    /// The stored masses, in storage order.
    #[verifier::loop_isolation(false)]
    pub fn values(&self) -> (r: Vec<Probability>)
        ensures
            r@.len() == self@.len(),
            forall|i: int| 0 <= i < r@.len() ==> (#[trigger] r@[i])@ == self@[i].1,
    {
        let mut out: Vec<Probability> = Vec::new();
        let mut i: usize = 0;
        while i < self.states.len()
            invariant
                i <= self@.len(),
                out@.len() == i,
                forall|j: int| 0 <= j < i ==> (#[trigger] out@[j])@ == self@[j].1,
            decreases self@.len() - i,
        {
            out.push(self.states[i].1);
            i = i + 1;
        }
        out
    }

    /// Read-only access to the stored (fingerprint, mass) pairs.
    pub fn iter(&self) -> (r: &Vec<(StateHash, Probability)>)
        ensures
            r@.map_values(|p: (StateHash, Probability)| (p.0@, p.1@)) == self@,
    {
        &self.states
    }

    /// How many fingerprints carry mass here.
    pub fn len(&self) -> (r: usize)
        ensures
            r == self@.len(),
    {
        self.states.len()
    }

    /// Whether no fingerprint carries mass here.
    pub fn is_empty(&self) -> (r: bool)
        ensures
            r == (self@.len() == 0),
    {
        self.states.len() == 0
    }

    /// Whether `state_hash` carries mass here.
    #[verifier::loop_isolation(false)]
    pub fn contains(&self, state_hash: &StateHash) -> (r: bool)
        ensures
            r == alist_contains(self@, state_hash@),
    {
        let mut i: usize = 0;
        while i < self.states.len()
            invariant
                i <= self@.len(),
                forall|j: int| 0 <= j < i ==> (#[trigger] self@[j]).0 != state_hash@,
            decreases self@.len() - i,
        {
            if self.states[i].0 == *state_hash {
                proof {
                    assert(self@[i as int].0 == state_hash@);
                }
                return true;
            }
            i = i + 1;
        }
        false
    }

    /// The mass stored under `state_hash`, if any.
    #[verifier::loop_isolation(false)]
    pub fn probability(&self, state_hash: &StateHash) -> (r: Option<Probability>)
        ensures
            match r {
                Some(p) => alist_find(self@, state_hash@) == Some(p@),
                None => alist_find(self@, state_hash@) == None::<u64>,
            },
    {
        let mut i: usize = 0;
        while i < self.states.len()
            invariant
                i <= self@.len(),
                forall|j: int| 0 <= j < i ==> (#[trigger] self@[j]).0 != state_hash@,
            decreases self@.len() - i,
        {
            if self.states[i].0 == *state_hash {
                proof {
                    assert(self@[i as int].0 == state_hash@);
                    lemma_find_at(self@, state_hash@, i as int);
                }
                return Some(self.states[i].1);
            }
            i = i + 1;
        }
        proof {
            lemma_find_absent(self@, state_hash@);
        }
        None
    }

    /// The exact total mass of the distribution, in fixed-point parts.
    #[verifier::loop_isolation(false)]
    pub fn probability_sum(&self) -> (r: u128)
        requires
            self.wf(),
        ensures
            r == mass_sum(self@),
    {
        let ghost s = self@;
        let mut sum: u128 = 0;
        let mut i: usize = 0;
        proof {
            assert(mass_sum(s.take(0)) == 0) by {
                assert(s.take(0) =~= Seq::<(u64, u64)>::empty());
            }
        }
        while i < self.states.len()
            invariant
                i <= s.len(),
                s == self@,
                self.wf(),
                sum == mass_sum(s.take(i as int)),
                sum <= (i as int) * (SCALE as int),
            decreases s.len() - i,
        {
            let p = self.states[i].1.parts();
            proof {
                assert(s.take(i + 1) =~= s.take(i as int).push(s[i as int]));
                lemma_mass_sum_push(s.take(i as int), s[i as int].0, s[i as int].1);
                assert(s[i as int].1 <= SCALE);
                assert((i as int) * (SCALE as int) + (SCALE as int) == ((i as int) + 1) * (
                SCALE as int)) by (nonlinear_arith);
                assert(((i as int) + 1) * (SCALE as int) < u128::MAX) by (nonlinear_arith)
                    requires
                        0 <= i < 0x1_0000_0000_0000_0000,
                ;
            }
            sum = sum + (p as u128);
            i = i + 1;
        }
        proof {
            assert(s.take(s.len() as int) =~= s);
        }
        sum
    }
}

/// Two to the power `k`.
pub open spec fn pow2(k: nat) -> nat
    decreases k,
{
    if k == 0 {
        1
    } else {
        2 * pow2((k - 1) as nat)
    }
}

/// Powers of two grow strictly.
pub proof fn lemma_pow2_increases(a: nat, b: nat)
    requires
        a <= b,
    ensures
        pow2(a) <= pow2(b),
    decreases b,
{
    if a < b {
        lemma_pow2_increases(a, (b - 1) as nat);
        assert(pow2(b) == 2 * pow2((b - 1) as nat));
    }
}

/// The binary logarithm of `q`, when `q` is a power of two.
pub open spec fn dyadic_exp(q: nat) -> Option<nat>
    decreases q,
{
    if q == 1 {
        Some(0nat)
    } else if q == 0 || q % 2 == 1 {
        None
    } else {
        match dyadic_exp(q / 2) {
            Some(k) => Some(k + 1),
            None => None,
        }
    }
}

/// The exact entropy contribution of one mass `p`, in billionths of a
/// bit: `p * k` where `p * 2^k == SCALE`. A zero mass contributes zero by
/// the usual convention; a mass that is not a power-of-two fraction of
/// the whole has an irrational contribution and therefore no exact value.
pub open spec fn entropy_term(p: u64) -> Option<int> {
    if p == 0 {
        Some(0int)
    } else if SCALE % p != 0 {
        None
    } else {
        match dyadic_exp((SCALE / p) as nat) {
            Some(k) => Some(p * k),
            None => None,
        }
    }
}

/// The exact Shannon entropy of a distribution view, in billionths of a
/// bit, when every mass has an exact contribution.
pub open spec fn entropy_sum(s: DistView) -> Option<int>
    decreases s.len(),
{
    if s.len() == 0 {
        Some(0int)
    } else {
        match (entropy_term(s[0].1), entropy_sum(s.drop_first())) {
            (Some(a), Some(b)) => Some(a + b),
            _ => None,
        }
    }
}

/// Folding one more entry into the entropy sum.
pub proof fn lemma_entropy_sum_push(s: DistView, h: u64, p: u64)
    ensures
        entropy_sum(s.push((h, p))) == match (entropy_sum(s), entropy_term(p)) {
            (Some(a), Some(b)) => Some(a + b),
            _ => None,
        },
    decreases s.len(),
{
    if s.len() == 0 {
        assert(s.push((h, p)).drop_first() =~= Seq::<(u64, u64)>::empty());
        assert(s.push((h, p))[0] == (h, p));
        assert(entropy_sum(Seq::<(u64, u64)>::empty()) == Some(0int));
    } else {
        assert(s.push((h, p)).drop_first() =~= s.drop_first().push((h, p)));
        lemma_entropy_sum_push(s.drop_first(), h, p);
    }
}

/// One inexact mass makes the whole sum inexact.
pub proof fn lemma_entropy_sum_none(s: DistView, i: int)
    requires
        0 <= i < s.len(),
        entropy_term(s[i].1) == None::<int>,
    ensures
        entropy_sum(s) == None::<int>,
    decreases i,
{
    if i == 0 {
    } else {
        lemma_entropy_sum_none(s.drop_first(), i - 1);
    }
}

/// A prefix never holds more mass than the whole view.
pub proof fn lemma_mass_sum_take_le(s: DistView, n: int)
    requires
        0 <= n <= s.len(),
    ensures
        mass_sum(s.take(n)) <= mass_sum(s),
    decreases s.len() - n,
{
    if n < s.len() {
        assert(s.take(n + 1) =~= s.take(n).push(s[n]));
        lemma_mass_sum_push(s.take(n), s[n].0, s[n].1);
        lemma_mass_sum_take_le(s, n + 1);
    } else {
        assert(s.take(n) =~= s);
    }
}

/// Computes the exact entropy contribution of the mass `p`.
#[verifier::loop_isolation(false)]
fn entropy_term_exec(p: u64) -> (r: Option<u64>)
    requires
        p <= SCALE,
    ensures
        match r {
            Some(t) => entropy_term(p) == Some(t as int) && t <= 30 * p,
            None => entropy_term(p) == None::<int>,
        },
{
    if p == 0 {
        return Some(0);
    }
    if SCALE % p != 0 {
        return None;
    }
    let q0 = SCALE / p;
    let mut m = q0;
    let mut k: u64 = 0;
    proof {
        assert(q0 >= 1) by (nonlinear_arith)
            requires
                p >= 1,
                p <= SCALE,
                q0 == SCALE as int / p as int,
        ;
        assert(q0 <= SCALE) by (nonlinear_arith)
            requires
                p >= 1,
                q0 == SCALE as int / p as int,
                SCALE > 0,
        ;
    }
    while m > 1
        invariant
            1 <= m,
            q0 >= 1,
            q0 <= SCALE,
            (m as nat) * pow2(k as nat) == q0 as nat,
            dyadic_exp(q0 as nat) == (match dyadic_exp(m as nat) {
                Some(t) => Some((t + k as nat) as nat),
                None => None,
            }),
        decreases m,
    {
        if m % 2 == 1 {
            return None;
        }
        proof {
            assert(pow2(k as nat) <= q0 as nat) by (nonlinear_arith)
                requires
                    (m as nat) * pow2(k as nat) == q0 as nat,
                    m >= 1,
                    pow2(k as nat) >= 0,
            ;
            assert(pow2(30nat) == 1073741824nat) by {
                reveal_with_fuel(pow2, 31);
            }
            assert(k < 30) by {
                if k >= 30 {
                    lemma_pow2_increases(30nat, k as nat);
                }
            }
            assert(((m / 2) as nat) * pow2((k + 1) as nat) == q0 as nat) by (nonlinear_arith)
                requires
                    m % 2 == 0,
                    m >= 2,
                    (m as nat) * pow2(k as nat) == q0 as nat,
                    pow2((k + 1) as nat) == 2 * pow2(k as nat),
            ;
        }
        m = m / 2;
        k = k + 1;
    }
    proof {
        assert(dyadic_exp(1nat) == Some(0nat));
        assert(dyadic_exp(q0 as nat) == Some(k as nat));
        assert(pow2(k as nat) <= q0 as nat) by (nonlinear_arith)
            requires
                (m as nat) * pow2(k as nat) == q0 as nat,
                m >= 1,
                pow2(k as nat) >= 0,
        ;
        assert(pow2(30nat) == 1073741824nat) by {
            reveal_with_fuel(pow2, 31);
        }
        assert(k <= 30) by {
            if k > 30 {
                lemma_pow2_increases(30nat, k as nat);
            }
        }
        assert((p as int) * (k as int) <= 30 * (p as int)) by (nonlinear_arith)
            requires
                0 <= p,
                0 <= k <= 30,
        ;
        assert(30 * (p as int) <= 30 * (SCALE as int)) by (nonlinear_arith)
            requires
                p <= SCALE,
        ;
    }
    Some(p * k)
}

impl ReachableStates {
    /// The exact Shannon entropy of the distribution, in billionths of a
    /// bit, with the convention that zero mass contributes zero. Some
    /// when every mass is a power-of-two fraction of one whole unit, so
    /// that the entropy is a rational number this fixed point can carry
    /// exactly; None otherwise.
    #[verifier::loop_isolation(false)]
    pub fn entropy(&self) -> (r: Option<Entropy>)
        requires
            self.wf(),
            mass_sum(self@) <= SCALE,
        ensures
            match r {
                Some(e) => entropy_sum(self@) == Some(e@ as int),
                None => entropy_sum(self@) == None::<int>,
            },
    {
        let ghost s = self@;
        let mut acc: u64 = 0;
        let mut i: usize = 0;
        proof {
            assert(entropy_sum(s.take(0)) == Some(0int)) by {
                assert(s.take(0) =~= Seq::<(u64, u64)>::empty());
            }
            assert(mass_sum(s.take(0)) == 0) by {
                assert(s.take(0) =~= Seq::<(u64, u64)>::empty());
            }
        }
        while i < self.states.len()
            invariant
                i <= s.len(),
                s == self@,
                entropy_sum(s.take(i as int)) == Some(acc as int),
                acc <= 30 * mass_sum(s.take(i as int)),
            decreases s.len() - i,
        {
            let p = self.states[i].1.parts();
            proof {
                assert(s[i as int].1 == p);
                assert(s.take(i + 1) =~= s.take(i as int).push(s[i as int]));
                lemma_entropy_sum_push(s.take(i as int), s[i as int].0, s[i as int].1);
                lemma_mass_sum_push(s.take(i as int), s[i as int].0, s[i as int].1);
                lemma_mass_sum_take_le(s, i + 1);
            }
            match entropy_term_exec(p) {
                Some(t) => {
                    acc = acc + t;
                },
                None => {
                    proof {
                        lemma_entropy_sum_none(s, i as int);
                    }
                    return None;
                },
            }
            i = i + 1;
        }
        proof {
            assert(s.take(s.len() as int) =~= s);
        }
        Some(Entropy::from_parts(acc))
    }
}

/// An exact entropy contribution is never negative.
pub proof fn lemma_entropy_term_nonneg(p: u64)
    requires
        entropy_term(p) is Some,
    ensures
        entropy_term(p) matches Some(t) && t >= 0,
{
    if p != 0 && SCALE % p == 0 {
        match dyadic_exp((SCALE / p) as nat) {
            Some(k) => {
                assert((p as int) * (k as int) >= 0) by (nonlinear_arith)
                    requires
                        p >= 0,
                        k >= 0,
                ;
            },
            None => {},
        }
    }
}

/// An exact entropy sum is never negative.
pub proof fn lemma_entropy_sum_nonneg(s: DistView)
    requires
        entropy_sum(s) is Some,
    ensures
        entropy_sum(s) matches Some(t) && t >= 0,
    decreases s.len(),
{
    if s.len() > 0 {
        lemma_entropy_term_nonneg(s[0].1);
        lemma_entropy_sum_nonneg(s.drop_first());
    }
}

/// A distribution whose every mass contributes zero has entropy zero.
proof fn lemma_entropy_sum_all_zero(s: DistView)
    requires
        forall|j: int| 0 <= j < s.len() ==> entropy_term((#[trigger] s[j]).1) == Some(0int),
    ensures
        entropy_sum(s) == Some(0int),
    decreases s.len(),
{
    if s.len() > 0 {
        assert(forall|j: int|
            0 <= j < s.drop_first().len() ==> (#[trigger] s.drop_first()[j]) == s[j + 1]);
        lemma_entropy_sum_all_zero(s.drop_first());
    }
}

/// A view of total mass zero holds only zero masses.
proof fn lemma_mass_zero_all_zero(s: DistView)
    requires
        mass_sum(s) == 0,
    ensures
        forall|j: int| 0 <= j < s.len() ==> (#[trigger] s[j]).1 == 0,
{
    assert forall|j: int| 0 <= j < s.len() implies (#[trigger] s[j]).1 == 0 by {
        lemma_entry_le_mass_sum(s, j);
    }
}

/// A zero contribution comes only from zero mass or the whole unit.
proof fn lemma_entropy_term_zero(p: u64)
    requires
        entropy_term(p) == Some(0int),
    ensures
        p == 0 || p == SCALE,
{
    if p != 0 && SCALE % p == 0 {
        match dyadic_exp((SCALE / p) as nat) {
            Some(k) => {
                assert(k == 0) by (nonlinear_arith)
                    requires
                        (p as int) * (k as int) == 0,
                        p >= 1,
                        k >= 0,
                ;
                assert((SCALE / p) as nat == 1);
                assert(p == SCALE) by (nonlinear_arith)
                    requires
                        p >= 1,
                        SCALE as int % p as int == 0,
                        SCALE as int / p as int == 1,
                        SCALE > 0,
                ;
            },
            None => {},
        }
    }
}

/// The mass `SCALE` contributes zero entropy.
proof fn lemma_entropy_term_full(p: u64)
    requires
        p == SCALE,
    ensures
        entropy_term(p) == Some(0int),
{
    assert(SCALE % p == 0 && SCALE / p == 1) by (nonlinear_arith)
        requires
            p == SCALE,
            SCALE > 0,
    ;
    assert(dyadic_exp(1nat) == Some(0nat));
}

/// The zero-entropy half of the entropy bounds: a distribution of one
/// whole unit of exactly representable mass has entropy zero exactly when
/// some single state carries the whole unit.
pub proof fn lemma_entropy_zero_iff_certain(s: DistView)
    requires
        entropy_sum(s) is Some,
        mass_sum(s) == SCALE,
    ensures
        entropy_sum(s) == Some(0int) <==> exists|i: int|
            0 <= i < s.len() && (#[trigger] s[i]).1 == SCALE,
{
    if entropy_sum(s) == Some(0int) {
        lemma_entropy_zero_forward(s);
    }
    if exists|i: int| 0 <= i < s.len() && (#[trigger] s[i]).1 == SCALE {
        let i = choose|i: int| 0 <= i < s.len() && (#[trigger] s[i]).1 == SCALE;
        lemma_mass_sum_remove(s, i);
        lemma_mass_zero_all_zero(s.remove(i));
        assert forall|j: int| 0 <= j < s.len() implies entropy_term((#[trigger] s[j]).1) == Some(
            0int,
        ) by {
            if j == i {
                lemma_entropy_term_full(s[j].1);
            } else {
                if j < i {
                    assert(s.remove(i)[j] == s[j]);
                } else {
                    assert(s.remove(i)[j - 1] == s[j]);
                }
            }
        }
        lemma_entropy_sum_all_zero(s);
    }
}

/// Zero exact entropy of one whole unit of mass puts the whole unit on
/// one state.
proof fn lemma_entropy_zero_forward(s: DistView)
    requires
        entropy_sum(s) == Some(0int),
        mass_sum(s) > 0,
        mass_sum(s) <= SCALE,
    ensures
        exists|i: int| 0 <= i < s.len() && (#[trigger] s[i]).1 == mass_sum(s),
    decreases s.len(),
{
    lemma_entropy_term_nonneg(s[0].1);
    lemma_entropy_sum_nonneg(s.drop_first());
    lemma_mass_sum_nonneg(s.drop_first());
    assert(entropy_term(s[0].1) == Some(0int));
    assert(entropy_sum(s.drop_first()) == Some(0int));
    lemma_entropy_term_zero(s[0].1);
    if s[0].1 == 0 {
        lemma_entropy_zero_forward(s.drop_first());
        let i = choose|i: int|
            0 <= i < s.drop_first().len() && (#[trigger] s.drop_first()[i]).1 == mass_sum(
                s.drop_first(),
            );
        assert(s[i + 1] == s.drop_first()[i]);
        assert(s[i + 1].1 == mass_sum(s));
    } else {
        assert(s[0].1 == SCALE);
        assert(mass_sum(s) == SCALE + mass_sum(s.drop_first()));
        assert(s[0].1 == mass_sum(s));
    }
}

/// The binary logarithm recovers the exponent of a power of two.
proof fn lemma_dyadic_exp_pow2(m: nat)
    ensures
        dyadic_exp(pow2(m)) == Some(m),
    decreases m,
{
    if m == 0 {
    } else {
        lemma_dyadic_exp_pow2((m - 1) as nat);
        assert(pow2(m) == 2 * pow2((m - 1) as nat));
        assert(pow2(m) % 2 == 0 && pow2(m) / 2 == pow2((m - 1) as nat)) by (nonlinear_arith)
            requires
                pow2(m) == 2 * pow2((m - 1) as nat),
        ;
        lemma_pow2_increases(0, (m - 1) as nat);
        assert(pow2(m) != 1) by (nonlinear_arith)
            requires
                pow2(m) == 2 * pow2((m - 1) as nat),
                pow2((m - 1) as nat) >= 1,
        ;
    }
}

/// A mass that is exactly `SCALE / 2^m` contributes `p * m`.
proof fn lemma_entropy_term_uniform(p: u64, m: nat)
    requires
        p >= 1,
        (p as nat) * pow2(m) == SCALE as nat,
    ensures
        entropy_term(p) == Some((p as int) * (m as int)),
{
    assert(SCALE as int % p as int == 0 && SCALE as int / p as int == pow2(m)) by (nonlinear_arith)
        requires
            p >= 1,
            (p as nat) * pow2(m) == SCALE as nat,
    ;
    lemma_dyadic_exp_pow2(m);
}

/// The maximum-entropy half of the entropy bounds: a uniform distribution
/// over `2^m` states, each holding `SCALE / 2^m` parts, has entropy
/// exactly `m` bits, the binary logarithm of its size.
pub proof fn lemma_entropy_uniform(s: DistView, p: u64, m: nat)
    requires
        p >= 1,
        (p as nat) * pow2(m) == SCALE as nat,
        s.len() == pow2(m),
        forall|j: int| 0 <= j < s.len() ==> (#[trigger] s[j]).1 == p,
    ensures
        entropy_sum(s) == Some((m as int) * (SCALE as int)),
{
    lemma_entropy_sum_uniform(s, p, m);
    assert(s.len() * ((p as int) * (m as int)) == (m as int) * (SCALE as int)) by (nonlinear_arith)
        requires
            s.len() == pow2(m),
            (p as nat) * pow2(m) == SCALE as nat,
    ;
}

/// Every entry contributing `p * m` makes the sum `len * p * m`.
proof fn lemma_entropy_sum_uniform(s: DistView, p: u64, m: nat)
    requires
        p >= 1,
        (p as nat) * pow2(m) == SCALE as nat,
        forall|j: int| 0 <= j < s.len() ==> (#[trigger] s[j]).1 == p,
    ensures
        entropy_sum(s) == Some(s.len() * ((p as int) * (m as int))),
    decreases s.len(),
{
    if s.len() == 0 {
    } else {
        lemma_entropy_term_uniform(p, m);
        assert(forall|j: int|
            0 <= j < s.drop_first().len() ==> (#[trigger] s.drop_first()[j]) == s[j + 1]);
        lemma_entropy_sum_uniform(s.drop_first(), p, m);
        assert((s.len() as int) * ((p as int) * (m as int)) == (p as int) * (m as int) + (s.len()
            - 1) * ((p as int) * (m as int))) by (nonlinear_arith);
    }
}

/// The binary logarithm inverts the power: an exact exponent names its
/// power of two.
proof fn lemma_dyadic_exp_inverts(q: nat)
    requires
        dyadic_exp(q) is Some,
    ensures
        dyadic_exp(q) matches Some(k) && pow2(k) == q,
    decreases q,
{
    if q == 1 {
    } else {
        lemma_dyadic_exp_inverts(q / 2);
        assert(q % 2 == 0);
        assert(2 * (q / 2) == q) by (nonlinear_arith)
            requires
                q % 2 == 0,
                q >= 2,
        ;
    }
}

/// Entropy never exceeds the deepest level in use: each exact term
/// `p * k` has `k <= L` when `p * 2^L >= SCALE`.
proof fn lemma_entropy_sum_depth_bound(s: DistView, depth: nat)
    requires
        entropy_sum(s) is Some,
        forall|j: int|
            0 <= j < s.len() ==> (#[trigger] s[j]).1 == 0 || (s[j].1 as nat) * pow2(depth)
                >= SCALE as nat,
    ensures
        entropy_sum(s) matches Some(t) && t <= (depth as int) * mass_sum(s),
    decreases s.len(),
{
    if s.len() == 0 {
    } else {
        let p = s[0].1;
        assert(forall|j: int|
            0 <= j < s.drop_first().len() ==> (#[trigger] s.drop_first()[j]) == s[j + 1]);
        lemma_entropy_sum_depth_bound(s.drop_first(), depth);
        lemma_mass_sum_nonneg(s.drop_first());
        if p != 0 {
            let q = (SCALE / p) as nat;
            lemma_dyadic_exp_inverts(q);
            let k = dyadic_exp(q).unwrap();
            assert(pow2(k) == q);
            assert((p as nat) * q == SCALE as nat) by (nonlinear_arith)
                requires
                    p >= 1,
                    SCALE as int % p as int == 0,
                    q == (SCALE / p) as nat,
                    SCALE > 0,
            ;
            assert(pow2(k) <= pow2(depth)) by (nonlinear_arith)
                requires
                    (p as nat) * pow2(k) == SCALE as nat,
                    (p as nat) * pow2(depth) >= SCALE as nat,
                    p >= 1,
            ;
            assert(k <= depth) by {
                if k > depth {
                    lemma_pow2_increases(depth + 1, k);
                    assert(pow2(k) >= pow2(depth + 1));
                    assert(pow2(depth + 1) == 2 * pow2(depth));
                    lemma_pow2_increases(0, depth);
                }
            }
            assert((p as int) * (k as int) <= (p as int) * (depth as int)) by (nonlinear_arith)
                requires
                    0 <= p,
                    0 <= k <= depth,
            ;
        }
        assert((depth as int) * (p as int) + (depth as int) * mass_sum(s.drop_first()) == (
        depth as int) * mass_sum(s)) by (nonlinear_arith)
            requires
                mass_sum(s) == p + mass_sum(s.drop_first()),
        ;
    }
}

/// The bounded-depth form of the entropy upper bound: when every nonzero
/// mass of an exactly representable distribution holds at least
/// `SCALE / 2^L` parts — which confines the support to at most `2^L`
/// states — the entropy is at most `L` bits. The full bound over an
/// arbitrary support size `n`, entropy at most the binary logarithm of
/// `n`, compares against an irrational real and rests on strict
/// concavity; it is not stated here.
pub proof fn lemma_entropy_depth_bounded(s: DistView, depth: nat)
    requires
        mass_sum(s) <= SCALE,
        entropy_sum(s) is Some,
        forall|j: int|
            0 <= j < s.len() ==> (#[trigger] s[j]).1 == 0 || (s[j].1 as nat) * pow2(depth)
                >= SCALE as nat,
    ensures
        entropy_sum(s) matches Some(t) && 0 <= t <= (depth as int) * (SCALE as int),
{
    lemma_entropy_sum_depth_bound(s, depth);
    lemma_entropy_sum_nonneg(s);
    assert((depth as int) * mass_sum(s) <= (depth as int) * (SCALE as int)) by (nonlinear_arith)
        requires
            mass_sum(s) <= SCALE,
            depth >= 0,
    ;
}

} // verus!
