//! The advance-step driver.
//!
//! One step takes the current distribution, the state pool, the cache and
//! the rule set, and produces the next distribution together with the
//! grown pool and cache, leaving all inputs untouched: a failing step
//! commits nothing.
//!
//! Mass bookkeeping is exact. At a base state of mass `m`, each
//! applicable rule of weight `w` receives `m * w / SCALE` fixed-point
//! parts, rounded down, and the remainder stays at the base state: the
//! stay-put residual convention, with weights on the zero-to-one scale.
//! A base state whose applicable weights sum beyond one whole unit is an
//! out-of-range error, so competing weights are rejected rather than
//! renormalized. Because every part of the base mass lands somewhere, the
//! step conserves total mass to the bit, which its contract states.

use vstd::prelude::*;

use crate::alist::{alist_contains, alist_find, lemma_find_index, lemma_find_push};
use crate::cache::{
    Cache,
    CacheView,
    cache_action,
    cache_condition,
    cache_extends,
    lemma_spec_add_action_find,
    lemma_spec_add_condition_find,
};
use crate::distribution::{DistView, ReachableStates, dist_append, lemma_mass_sum_push, mass_sum};
use crate::errors::ErrorKind;
use crate::hashing::state_hash_of;
use crate::rules::{Rule, RuleName, action_ok, action_result};
use crate::state::{PoolView, PossibleStates, State, StateHash, StateView, pool_extends};
use crate::units::{Probability, SCALE};

verus! {

/// What evaluating one rule at one base state does: how the cache and
/// the pool grow, and which (successor fingerprint, weight) deposit the
/// rule contributes, exactly as [`Rule::applies`] and [`Rule::apply`]
/// behave. The error cases are a cached successor missing from the pool
/// and an action that does not apply to the base state.
pub open spec fn step_rule(
    cv: CacheView,
    pv: PoolView,
    rn: Seq<char>,
    rule: Rule,
    base_hash: u64,
    base_sv: StateView,
) -> Result<(CacheView, PoolView, Option<(u64, u64)>), ()> {
    let fires = rule.spec_applies(cv, rn, base_sv).0;
    let produced = rule.spec_applies(cv, rn, base_sv).1;
    let cv1 = if produced {
        match Cache::spec_add_condition(cv, rn, state_hash_of(base_sv), fires) {
            Ok(c) => c,
            Err(w) => cv,
        }
    } else {
        cv
    };
    if !fires {
        Ok((cv1, pv, None::<(u64, u64)>))
    } else {
        match cache_action(cv1, rn, base_hash) {
            Some(nh) => match alist_find(pv, nh) {
                None => Err(()),
                Some(sv2) => {
                    let dh = state_hash_of(sv2);
                    let pv2 = if alist_contains(pv, dh) {
                        pv
                    } else {
                        pv.push((dh, sv2))
                    };
                    Ok((cv1, pv2, Some((dh, rule.weight@))))
                },
            },
            None => if !action_ok(rule.action, base_sv) {
                Err(())
            } else {
                let sv2 = action_result(rule.action, base_sv);
                let dh = state_hash_of(sv2);
                let cv2 = match Cache::spec_add_action(cv1, rn, base_hash, dh) {
                    Ok(c) => c,
                    Err(w) => cv1,
                };
                let pv2 = if alist_contains(pv, dh) {
                    pv
                } else {
                    pv.push((dh, sv2))
                };
                Ok((cv2, pv2, Some((dh, rule.weight@))))
            },
        }
    }
}

/// Folds [`step_rule`] over the rule list, threading cache and pool and
/// collecting the deposits in rule order.
pub open spec fn step_rules(
    cv: CacheView,
    pv: PoolView,
    rules: Seq<(RuleName, Rule)>,
    base_hash: u64,
    base_sv: StateView,
) -> Result<(CacheView, PoolView, Seq<(u64, u64)>), ()>
    decreases rules.len(),
{
    if rules.len() == 0 {
        Ok((cv, pv, Seq::<(u64, u64)>::empty()))
    } else {
        match step_rule(cv, pv, rules[0].0@, rules[0].1, base_hash, base_sv) {
            Err(u) => Err(()),
            Ok(t) => match step_rules(t.0, t.1, rules.drop_first(), base_hash, base_sv) {
                Err(u) => Err(()),
                Ok(t2) => Ok(
                    (
                        t2.0,
                        t2.1,
                        match t.2 {
                            Some(d) => seq![d] + t2.2,
                            None => t2.2,
                        },
                    ),
                ),
            },
        }
    }
}

/// The total weight of a deposit list.
pub open spec fn deposit_weight(deps: Seq<(u64, u64)>) -> int {
    mass_sum(deps)
}

/// Folds the floor shares of a deposit list into the distribution,
/// reporting the accumulated share total.
pub open spec fn deposit_shares(next: DistView, mass: u64, deps: Seq<(u64, u64)>) -> Result<
    (DistView, int),
    (),
>
    decreases deps.len(),
{
    if deps.len() == 0 {
        Ok((next, 0int))
    } else {
        let q = (mass as int) * (deps[0].1 as int) / (SCALE as int);
        match dist_append(next, deps[0].0, q as u64) {
            Err(v) => Err(()),
            Ok(n1) => match deposit_shares(n1, mass, deps.drop_first()) {
                Err(u) => Err(()),
                Ok(pr) => Ok((pr.0, q + pr.1)),
            },
        }
    }
}

/// What one base state's deposits do to the next distribution: every
/// applicable weight must stay at or below one whole unit and so must
/// their sum; each rule then receives its floor share and the remainder
/// stays at the base fingerprint.
pub open spec fn deposit_phase(
    next: DistView,
    base_hash: u64,
    mass: u64,
    deps: Seq<(u64, u64)>,
) -> Result<DistView, ()> {
    if exists|k: int| 0 <= k < deps.len() && (#[trigger] deps[k]).1 > SCALE {
        Err(())
    } else if deposit_weight(deps) > SCALE {
        Err(())
    } else {
        match deposit_shares(next, mass, deps) {
            Err(u) => Err(()),
            Ok(pr) => if mass - pr.1 > 0 || deps.len() == 0 {
                match dist_append(pr.0, base_hash, (mass - pr.1) as u64) {
                    Ok(n2) => Ok(n2),
                    Err(v) => Err(()),
                }
            } else {
                Ok(pr.0)
            },
        }
    }
}

/// One whole base state: look its state up in the pool, evaluate every
/// rule, then deposit.
pub open spec fn step_base(
    next: DistView,
    pv: PoolView,
    cv: CacheView,
    base_hash: u64,
    mass: u64,
    rules: Seq<(RuleName, Rule)>,
) -> Result<(DistView, PoolView, CacheView), ()> {
    match alist_find(pv, base_hash) {
        None => Err(()),
        Some(base_sv) => match step_rules(cv, pv, rules, base_hash, base_sv) {
            Err(u) => Err(()),
            Ok(t) => match deposit_phase(next, base_hash, mass, t.2) {
                Err(u) => Err(()),
                Ok(n2) => Ok((n2, t.1, t.0)),
            },
        },
    }
}

/// Folds [`step_base`] over the distribution's entries.
pub open spec fn step_fold(
    next: DistView,
    pv: PoolView,
    cv: CacheView,
    entries: Seq<(u64, u64)>,
    rules: Seq<(RuleName, Rule)>,
) -> Result<(DistView, PoolView, CacheView), ()>
    decreases entries.len(),
{
    if entries.len() == 0 {
        Ok((next, pv, cv))
    } else {
        match step_base(next, pv, cv, entries[0].0, entries[0].1, rules) {
            Err(u) => Err(()),
            Ok(t) => step_fold(t.0, t.1, t.2, entries.drop_first(), rules),
        }
    }
}

/// The advance-step as a function of its inputs: the next distribution,
/// the grown pool and the grown cache, or failure exactly where
/// [`advance_step`] fails.
pub open spec fn step_spec(
    dist: DistView,
    pv: PoolView,
    cv: CacheView,
    rules: Seq<(RuleName, Rule)>,
) -> Result<(DistView, PoolView, CacheView), ()> {
    step_fold(DistView::empty(), pv, cv, dist, rules)
}

/// Purity: the step's contract pins its result to [`step_spec`], a
/// function of the inputs alone, so two successful advance-steps from
/// identical inputs yield identical distributions, pools and caches.
pub proof fn lemma_step_purity(
    dist: DistView,
    pv: PoolView,
    cv: CacheView,
    rules: Seq<(RuleName, Rule)>,
    a: (DistView, PoolView, CacheView),
    b: (DistView, PoolView, CacheView),
)
    requires
        step_spec(dist, pv, cv, rules) == Ok::<(DistView, PoolView, CacheView), ()>(a),
        step_spec(dist, pv, cv, rules) == Ok::<(DistView, PoolView, CacheView), ()>(b),
    ensures
        a == b,
{
}

/// The deposit lists of the exec and the spec agree entry for entry.
proof fn lemma_weight_sum_is_deposit_weight(s: Seq<(StateHash, u64)>)
    ensures
        deposit_weight(s.map_values(|p: (StateHash, u64)| (p.0@, p.1))) == weight_sum(s),
    decreases s.len(),
{
    if s.len() > 0 {
        lemma_weight_sum_is_deposit_weight(s.drop_first());
        assert(s.map_values(|p: (StateHash, u64)| (p.0@, p.1)).drop_first() =~= s.drop_first()
            .map_values(|p: (StateHash, u64)| (p.0@, p.1)));
    }
}

/// Evaluates every rule at one base state: cache misses are memoized
/// into `new_cache`, fresh successors are pooled, and the applicable
/// (successor fingerprint, weight) pairs come back in rule order —
/// exactly the [`step_rules`] fold.
#[verifier::loop_isolation(false)]
#[verifier::rlimit(100)]
fn eval_rules_at(
    new_cache: &mut Cache,
    pool: &mut PossibleStates,
    base_hash: StateHash,
    base_state: &State,
    rules: &Vec<(RuleName, Rule)>,
) -> (r: Result<Vec<(StateHash, u64)>, ErrorKind>)
    requires
        old(new_cache).wf(),
        old(pool).wf(),
        base_state.wf(),
        forall|t: int| 0 <= t < rules@.len() ==> (#[trigger] rules@[t]).1.wf(),
    ensures
        final(new_cache).wf(),
        final(pool).wf(),
        pool_extends(old(pool)@, final(pool)@),
        cache_extends(old(new_cache)@, final(new_cache)@),
        match r {
            Ok(ap) => step_rules(
                old(new_cache)@,
                old(pool)@,
                rules@,
                base_hash@,
                base_state@,
            ) == Ok::<(CacheView, PoolView, Seq<(u64, u64)>), ()>(
                (
                    final(new_cache)@,
                    final(pool)@,
                    ap@.map_values(|p: (StateHash, u64)| (p.0@, p.1)),
                ),
            ),
            Err(e) => step_rules(old(new_cache)@, old(pool)@, rules@, base_hash@, base_state@)
                is Err,
        },
{
    let ghost cv_base = new_cache@;
    let ghost pv_base = pool@;
    let ghost bsv = base_state@;
    let mut applicable: Vec<(StateHash, u64)> = Vec::new();
    let mut j: usize = 0;
    proof {
        assert(rules@.skip(0) =~= rules@);
        assert(applicable@.map_values(|p: (StateHash, u64)| (p.0@, p.1)) =~= Seq::<
            (u64, u64),
        >::empty());
        match step_rules(cv_base, pv_base, rules@, base_hash@, bsv) {
            Ok(t) => {
                assert(Seq::<(u64, u64)>::empty() + t.2 =~= t.2);
            },
            Err(u) => {},
        }
    }
    while j < rules.len()
        invariant
            j <= rules@.len(),
            applicable@.len() <= j,
            pool.wf(),
            new_cache.wf(),
            pool_extends(pv_base, pool@),
            cache_extends(cv_base, new_cache@),
            step_rules(cv_base, pv_base, rules@, base_hash@, bsv) == (match step_rules(
                new_cache@,
                pool@,
                rules@.skip(j as int),
                base_hash@,
                bsv,
            ) {
                Ok(t) => Ok::<(CacheView, PoolView, Seq<(u64, u64)>), ()>(
                    (t.0, t.1, applicable@.map_values(|p: (StateHash, u64)| (p.0@, p.1)) + t.2),
                ),
                Err(u) => Err::<(CacheView, PoolView, Seq<(u64, u64)>), ()>(()),
            }),
        decreases rules@.len() - j,
    {
        let ghost cv_top = new_cache@;
        let ghost pv_top = pool@;
        let ghost ap_top = applicable@.map_values(|p: (StateHash, u64)| (p.0@, p.1));
        let ghost mut dep: Option<(u64, u64)> = None::<(u64, u64)>;
        proof {
            assert(step_rules(cv_base, pv_base, rules@, base_hash@, bsv) == (match step_rules(
                cv_top,
                pv_top,
                rules@.skip(j as int),
                base_hash@,
                bsv,
            ) {
                Ok(t) => Ok::<(CacheView, PoolView, Seq<(u64, u64)>), ()>(
                    (t.0, t.1, ap_top + t.2),
                ),
                Err(u) => Err::<(CacheView, PoolView, Seq<(u64, u64)>), ()>(()),
            }));
            assert(rules@.skip(j as int)[0] == rules@[j as int]);
            assert(rules@.skip(j as int).drop_first() =~= rules@.skip(j + 1));
        }
        let rule_name = rules[j].0.clone();
        let rule = &rules[j].1;
        let outcome = match rule.applies(&new_cache, rule_name.clone(), base_state.clone()) {
            Ok(o) => o,
            Err(e) => {
                proof {
                    assert(false);
                }
                return Err(ErrorKind::CacheErr(e));
            },
        };
        let ghost cv_before = new_cache@;
        if let Some(update) = outcome.1 {
            let ghost urn = update.rule_name@;
            let ghost uh = update.base_state_hash@;
            let ghost uv = update.applies@;
            proof {
                crate::alist::lemma_find_contains(cv_before, urn);
            }
            match new_cache.apply_condition_update(update) {
                Ok(u) => {
                    proof {
                        assert forall|rn: Seq<char>, h: u64|
                            #[trigger] cache_condition(new_cache@, rn, h) == cache_condition(
                            cv_before,
                            rn,
                            h,
                        ) || cache_condition(cv_before, rn, h) == None::<bool> by {
                            lemma_spec_add_condition_find(cv_before, urn, uh, uv, rn, h);
                        }
                        assert forall|rn: Seq<char>, h: u64|
                            #[trigger] cache_action(new_cache@, rn, h) == cache_action(
                            cv_before,
                            rn,
                            h,
                        ) by {
                            lemma_spec_add_condition_find(cv_before, urn, uh, uv, rn, h);
                        }
                    }
                },
                Err(e) => {
                    proof {
                        assert(cache_condition(cv_before, urn, uh) is None);
                        assert(false);
                    }
                    return Err(ErrorKind::CacheErr(e));
                },
            }
        }
        if outcome.0.is_true() {
            let applied = rule.apply(&new_cache, &pool, rule_name, base_hash, base_state.clone());
            match applied {
                Ok(pair) => {
                    let new_state = pair.0;
                    let ghost cv_mid = new_cache@;
                    if let Some(update) = pair.1 {
                        let ghost urn = update.rule_name@;
                        let ghost uh = update.base_state_hash@;
                        let ghost uv = update.new_state_hash@;
                        match new_cache.apply_action_update(update) {
                            Ok(u) => {
                                proof {
                                    assert forall|rn: Seq<char>, h: u64|
                                        #[trigger] cache_action(new_cache@, rn, h) == cache_action(
                                        cv_mid,
                                        rn,
                                        h,
                                    ) || cache_action(cv_mid, rn, h) == None::<u64> by {
                                        lemma_spec_add_action_find(cv_mid, urn, uh, uv, rn, h);
                                    }
                                    assert forall|rn: Seq<char>, h: u64|
                                        #[trigger] cache_condition(new_cache@, rn, h)
                                            == cache_condition(cv_mid, rn, h) by {
                                        lemma_spec_add_action_find(cv_mid, urn, uh, uv, rn, h);
                                    }
                                }
                            },
                            Err(e) => {
                                proof {
                                    assert(cache_action(cv_mid, urn, uh) is None);
                                    assert(false);
                                }
                                return Err(ErrorKind::CacheErr(e));
                            },
                        }
                    }
                    let new_hash = StateHash::from_state(&new_state);
                    if !pool.contains(&new_hash) {
                        let ghost pv = pool@;
                        match pool.append_state(new_hash, new_state) {
                            Ok(u) => {
                                proof {
                                    assert forall|q: u64|
                                        #[trigger] alist_find(pool@, q) == alist_find(pv, q)
                                            || alist_find(pv, q) == None::<StateView> by {
                                        lemma_find_push(pv, new_hash@, new_state@, q);
                                        crate::alist::lemma_find_contains(pv, q);
                                    }
                                }
                            },
                            Err(e) => {
                                proof {
                                    assert(false);
                                }
                                return Err(ErrorKind::StateNotFound(e.key));
                            },
                        }
                    }
                    let weight = rule.weight().parts();
                    applicable.push((new_hash, weight));
                    proof {
                        dep = Some((new_hash@, weight));
                    }
                },
                Err(e) => {
                    proof {
                        assert(step_rule(
                            cv_top,
                            pv_top,
                            rules@[j as int].0@,
                            rules@[j as int].1,
                            base_hash@,
                            bsv,
                        ) is Err);
                        assert(step_rules(
                            cv_top,
                            pv_top,
                            rules@.skip(j as int),
                            base_hash@,
                            bsv,
                        ) is Err);
                    }
                    return Err(e);
                },
            }
        }
        proof {
            assert(step_rule(
                cv_top,
                pv_top,
                rules@[j as int].0@,
                rules@[j as int].1,
                base_hash@,
                bsv,
            ) == Ok::<(CacheView, PoolView, Option<(u64, u64)>), ()>((new_cache@, pool@, dep)));
            match dep {
                Some(d) => {
                    assert(applicable@.map_values(|p: (StateHash, u64)| (p.0@, p.1)) =~= ap_top
                        .push(d));
                    match step_rules(new_cache@, pool@, rules@.skip(j + 1), base_hash@, bsv) {
                        Ok(t) => {
                            assert(ap_top + (seq![d] + t.2) =~= ap_top.push(d) + t.2);
                        },
                        Err(u) => {},
                    }
                },
                None => {
                    assert(applicable@.map_values(|p: (StateHash, u64)| (p.0@, p.1)) =~= ap_top);
                },
            }
        }
        j = j + 1;
    }
    proof {
        assert(rules@.skip(rules@.len() as int) =~= Seq::<(RuleName, Rule)>::empty());
        match step_rules(new_cache@, pool@, rules@.skip(rules@.len() as int), base_hash@, bsv) {
            Ok(t) => {
                assert(applicable@.map_values(|p: (StateHash, u64)| (p.0@, p.1)) + t.2
                    =~= applicable@.map_values(|p: (StateHash, u64)| (p.0@, p.1)));
            },
            Err(u) => {},
        }
    }
    Ok(applicable)
}

/// Deposits one base state's mass into the next distribution: each
/// applicable rule receives its floor share and the remainder stays at
/// the base fingerprint — exactly the [`deposit_phase`] transition.
#[verifier::loop_isolation(false)]
#[verifier::rlimit(100)]
fn deposit_base(
    next: &mut ReachableStates,
    base_hash: StateHash,
    mass: u64,
    applicable: &Vec<(StateHash, u64)>,
) -> (r: Result<(), ErrorKind>)
    requires
        old(next).wf(),
        mass <= SCALE,
    ensures
        final(next).wf(),
        match r {
            Ok(u) => {
                &&& deposit_phase(
                    old(next)@,
                    base_hash@,
                    mass,
                    applicable@.map_values(|p: (StateHash, u64)| (p.0@, p.1)),
                ) == Ok::<DistView, ()>(final(next)@)
                &&& mass_sum(final(next)@) == mass_sum(old(next)@) + mass
                &&& applicable@.len() == 0 ==> forall|k: u64|
                    alist_contains(final(next)@, k) ==> alist_contains(old(next)@, k) || k
                        == base_hash@
            },
            Err(e) => deposit_phase(
                old(next)@,
                base_hash@,
                mass,
                applicable@.map_values(|p: (StateHash, u64)| (p.0@, p.1)),
            ) is Err && (applicable@.len() == 0 ==> alist_contains(old(next)@, base_hash@)),
        },
{
    let ghost d0 = next@;
    let ghost deps = applicable@.map_values(|p: (StateHash, u64)| (p.0@, p.1));
    // Total applicable weight; beyond one whole unit is an error.
    let mut total_weight: u128 = 0;
    let mut k: usize = 0;
    while k < applicable.len()
        invariant
            k <= applicable@.len(),
            next@ == d0,
            deps == applicable@.map_values(|p: (StateHash, u64)| (p.0@, p.1)),
            total_weight <= (k as int) * (SCALE as int),
            total_weight == weight_sum(applicable@.take(k as int)),
            forall|a: int| 0 <= a < k ==> (#[trigger] applicable@[a]).1 <= SCALE,
        decreases applicable@.len() - k,
    {
        proof {
            assert(applicable@.take(k + 1) =~= applicable@.take(k as int).push(
                applicable@[k as int],
            ));
            lemma_weight_sum_push(applicable@.take(k as int), applicable@[k as int]);
            assert((k as int) * (SCALE as int) + (SCALE as int) == ((k as int) + 1) * (
            SCALE as int)) by (nonlinear_arith);
        }
        if applicable[k].1 > SCALE {
            proof {
                assert(deps[k as int].1 > SCALE);
                assert(deposit_phase(d0, base_hash@, mass, deps) is Err);
            }
            return Err(
                ErrorKind::OutOfRange(
                    crate::errors::OutOfRangeError { value: applicable[k].1, min: 0, max: SCALE },
                ),
            );
        }
        total_weight = total_weight + (applicable[k].1 as u128);
        k = k + 1;
    }
    proof {
        assert(applicable@.take(applicable@.len() as int) =~= applicable@);
        lemma_weight_sum_is_deposit_weight(applicable@);
        assert(!(exists|a: int| 0 <= a < deps.len() && (#[trigger] deps[a]).1 > SCALE)) by {
            if exists|a: int| 0 <= a < deps.len() && (#[trigger] deps[a]).1 > SCALE {
                let a = choose|a: int| 0 <= a < deps.len() && (#[trigger] deps[a]).1 > SCALE;
                assert(applicable@[a].1 > SCALE);
            }
        }
    }
    if total_weight > SCALE as u128 {
        proof {
            assert(deposit_phase(d0, base_hash@, mass, deps) is Err);
        }
        return Err(
            ErrorKind::OutOfRange(
                crate::errors::OutOfRangeError { value: SCALE, min: 0, max: SCALE },
            ),
        );
    }
    // Deposit each rule's floor share; the remainder stays put.
    let mut deposited: u64 = 0;
    let mut m: usize = 0;
    proof {
        assert(deps.skip(0) =~= deps);
    }
    while m < applicable.len()
        invariant
            m <= applicable@.len(),
            mass <= SCALE,
            next.wf(),
            deps == applicable@.map_values(|p: (StateHash, u64)| (p.0@, p.1)),
            deposited <= mass,
            (deposited as int) * (SCALE as int) <= (mass as int) * weight_sum(
                applicable@.take(m as int),
            ),
            weight_sum(applicable@) <= SCALE,
            weight_sum(applicable@.take(m as int)) <= weight_sum(applicable@),
            forall|a: int| 0 <= a < applicable@.len() ==> (#[trigger] applicable@[a]).1 <= SCALE,
            mass_sum(next@) == mass_sum(d0) + deposited,
            m == 0 ==> next@ == d0,
            deposit_shares(d0, mass, deps) == (match deposit_shares(
                next@,
                mass,
                deps.skip(m as int),
            ) {
                Ok(pr) => Ok::<(DistView, int), ()>((pr.0, deposited + pr.1)),
                Err(u) => Err::<(DistView, int), ()>(()),
            }),
        decreases applicable@.len() - m,
    {
        let ghost nx_top = next@;
        let w = applicable[m].1;
        proof {
            lemma_share_bounds(mass, w);
            lemma_weight_sum_nonneg(applicable@.take(m as int));
            assert(deps.skip(m as int)[0] == deps[m as int]);
            assert(deps.skip(m as int).drop_first() =~= deps.skip(m + 1));
            assert(deps[m as int] == (applicable@[m as int].0@, w));
        }
        let share128: u128 = (mass as u128) * (w as u128) / (SCALE as u128);
        proof {
            assert(applicable@.take(m + 1) =~= applicable@.take(m as int).push(
                applicable@[m as int],
            ));
            lemma_weight_sum_push(applicable@.take(m as int), applicable@[m as int]);
            lemma_weight_sum_take_le(applicable@, m + 1);
            lemma_deposit_step(
                mass as int,
                w as int,
                share128 as int,
                deposited as int,
                weight_sum(applicable@.take(m as int)),
            );
        }
        let share: u64 = share128 as u64;
        let prob = match Probability::new(share) {
            Ok(p) => p,
            Err(e) => {
                proof {
                    assert(false);
                }
                return Err(ErrorKind::OutOfRange(e));
            },
        };
        match next.append_state(applicable[m].0, prob) {
            Ok(u) => {},
            Err(e) => {
                proof {
                    assert(deposit_shares(nx_top, mass, deps.skip(m as int)) is Err);
                    assert(deposit_shares(d0, mass, deps) is Err);
                    assert(deposit_phase(d0, base_hash@, mass, deps) is Err);
                    assert(deps.len() > 0);
                }
                return Err(ErrorKind::OutOfRange(e));
            },
        }
        deposited = deposited + share;
        m = m + 1;
    }
    proof {
        assert(deps.skip(deps.len() as int) =~= Seq::<(u64, u64)>::empty());
        assert(deposit_shares(d0, mass, deps) == Ok::<(DistView, int), ()>(
            (next@, deposited as int),
        ));
    }
    let residual: u64 = mass - deposited;
    let ghost nx_shares = next@;
    if residual > 0 || applicable.len() == 0 {
        let prob = match Probability::new(residual) {
            Ok(p) => p,
            Err(e) => {
                proof {
                    assert(false);
                }
                return Err(ErrorKind::OutOfRange(e));
            },
        };
        match next.append_state(base_hash, prob) {
            Ok(u) => {
                proof {
                    assert(deposit_phase(d0, base_hash@, mass, deps) == Ok::<DistView, ()>(
                        next@,
                    ));
                    if applicable@.len() == 0 {
                        assert(nx_shares == d0);
                        crate::alist::lemma_find_contains(d0, base_hash@);
                        if !alist_contains(d0, base_hash@) {
                            assert(next@ == d0.push((base_hash@, residual)));
                            assert forall|q: u64| alist_contains(next@, q) implies alist_contains(
                                d0,
                                q,
                            ) || q == base_hash@ by {
                                lemma_find_push(d0, base_hash@, residual, q);
                                crate::alist::lemma_find_contains(next@, q);
                                crate::alist::lemma_find_contains(d0, q);
                            }
                        } else {
                            let fi = crate::alist::find_index(d0, base_hash@);
                            crate::alist::lemma_find_index(d0, base_hash@);
                            assert forall|q: u64| alist_contains(next@, q) implies alist_contains(
                                d0,
                                q,
                            ) || q == base_hash@ by {
                                let w2 = choose|w2: int|
                                    0 <= w2 < next@.len() && (#[trigger] next@[w2]).0 == q;
                                assert(next@[w2].0 == d0[w2].0);
                            }
                        }
                    }
                }
            },
            Err(e) => {
                proof {
                    assert(deposit_phase(d0, base_hash@, mass, deps) is Err);
                    if applicable@.len() == 0 {
                        assert(nx_shares == d0);
                        crate::alist::lemma_find_contains(d0, base_hash@);
                    }
                }
                return Err(ErrorKind::OutOfRange(e));
            },
        }
    } else {
        proof {
            assert(deposit_phase(d0, base_hash@, mass, deps) == Ok::<DistView, ()>(next@));
            assert(mass_sum(next@) == mass_sum(d0) + mass);
        }
    }
    Ok(())
}

/// Advances the distribution one step: evaluates every rule at every
/// reachable base state through the cache, deposits the exact fixed-point
/// shares, and returns the next distribution with the grown pool and
/// cache. The whole step is the pure transition [`step_spec`] of the
/// inputs, which the contract states in both directions: a success
/// returns exactly the transition's result, and a failure happens exactly
/// where the transition fails — an applicable weight or weight sum beyond
/// one whole unit, a base state missing from the pool, a cached successor
/// missing from the pool, or an inapplicable firing action. The inputs
/// are never changed, so a failing step commits nothing.
#[verifier::loop_isolation(false)]
#[verifier::rlimit(100)]
pub fn advance_step(
    reachable: &ReachableStates,
    possible_states: &PossibleStates,
    cache: &Cache,
    rules: &Vec<(RuleName, Rule)>,
) -> (r: Result<(ReachableStates, PossibleStates, Cache), ErrorKind>)
    requires
        reachable.wf(),
        possible_states.wf(),
        cache.wf(),
        forall|i: int| 0 <= i < rules@.len() ==> (#[trigger] rules@[i]).1.wf(),
    ensures
        match r {
            Ok(out) => {
                &&& out.0.wf() && out.1.wf() && out.2.wf()
                &&& step_spec(reachable@, possible_states@, cache@, rules@) == Ok::<
                    (DistView, PoolView, CacheView),
                    (),
                >((out.0@, out.1@, out.2@))
                &&& mass_sum(out.0@) == mass_sum(reachable@)
                &&& pool_extends(possible_states@, out.1@)
                &&& cache_extends(cache@, out.2@)
            },
            Err(e) => step_spec(reachable@, possible_states@, cache@, rules@) is Err && (
            rules@.len() > 0 || exists|j: int|
                0 <= j < reachable@.len() && !alist_contains(
                    possible_states@,
                    (#[trigger] reachable@[j]).0,
                )),
        },
{
    let mut next = ReachableStates::new();
    let mut pool = possible_states.clone();
    let mut new_cache = cache.clone();
    let entries = reachable.iter();
    let ghost dist = reachable@;
    let mut i: usize = 0;
    proof {
        assert(mass_sum(dist.take(0)) == 0) by {
            assert(dist.take(0) =~= Seq::<(u64, u64)>::empty());
        }
        assert(dist.skip(0) =~= dist);
        assert(next@ =~= DistView::empty());
    }
    while i < entries.len()
        invariant
            i <= dist.len(),
            entries@.map_values(|p: (StateHash, Probability)| (p.0@, p.1@)) == dist,
            next.wf(),
            pool.wf(),
            new_cache.wf(),
            mass_sum(next@) == mass_sum(dist.take(i as int)),
            pool_extends(possible_states@, pool@),
            cache_extends(cache@, new_cache@),
            step_fold(DistView::empty(), possible_states@, cache@, dist, rules@) == step_fold(
                next@,
                pool@,
                new_cache@,
                dist.skip(i as int),
                rules@,
            ),
            rules@.len() == 0 ==> forall|k: u64|
                alist_contains(next@, k) ==> alist_contains(dist.take(i as int), k),
        decreases dist.len() - i,
    {
        let ghost nx_base = next@;
        let ghost pv_base = pool@;
        let ghost cv_base = new_cache@;
        let base_hash = entries[i].0;
        let mass = entries[i].1.parts();
        proof {
            assert(dist[i as int] == (base_hash@, mass));
            assert(dist.skip(i as int)[0] == dist[i as int]);
            assert(dist.skip(i as int).drop_first() =~= dist.skip(i + 1));
            assert(step_fold(DistView::empty(), possible_states@, cache@, dist, rules@)
                == step_fold(nx_base, pv_base, cv_base, dist.skip(i as int), rules@));
        }
        let base_state = match pool.state(&base_hash) {
            Some(st) => {
                proof {
                    crate::alist::lemma_find_contains(pool@, base_hash@);
                    lemma_find_index(pool@, base_hash@);
                }
                st.clone()
            },
            None => {
                proof {
                    crate::alist::lemma_find_contains(pool@, base_hash@);
                    crate::alist::lemma_find_contains(possible_states@, base_hash@);
                    assert(alist_find(pool@, base_hash@) == None::<StateView>);
                    assert(alist_find(possible_states@, base_hash@) == None::<StateView>);
                    assert(!alist_contains(possible_states@, base_hash@));
                    assert(step_base(nx_base, pv_base, cv_base, base_hash@, mass, rules@) is Err);
                    assert(step_fold(nx_base, pv_base, cv_base, dist.skip(i as int), rules@)
                        is Err);
                }
                return Err(ErrorKind::StateNotFound(base_hash));
            },
        };
        let ghost bsv = base_state@;
        proof {
            assert(alist_find(pv_base, base_hash@) == Some(bsv));
        }
        let applicable = match eval_rules_at(&mut new_cache, &mut pool, base_hash, &base_state, rules) {
            Ok(ap) => ap,
            Err(e) => {
                proof {
                    assert(step_base(nx_base, pv_base, cv_base, base_hash@, mass, rules@) is Err);
                    assert(step_fold(nx_base, pv_base, cv_base, dist.skip(i as int), rules@)
                        is Err);
                }
                return Err(e);
            },
        };
        proof {
            assert forall|q: u64|
                #[trigger] alist_find(pool@, q) == alist_find(possible_states@, q) || alist_find(
                    possible_states@,
                    q,
                ) == None::<StateView> by {}
            if rules@.len() == 0 {
                assert(applicable@.map_values(|p: (StateHash, u64)| (p.0@, p.1)).len() == 0);
                assert(applicable@.len() == 0);
            }
        }
        match deposit_base(&mut next, base_hash, mass, &applicable) {
            Ok(u) => {
                proof {
                    assert(step_base(nx_base, pv_base, cv_base, base_hash@, mass, rules@) == Ok::<
                        (DistView, PoolView, CacheView),
                        (),
                    >((next@, pool@, new_cache@)));
                    assert(step_fold(nx_base, pv_base, cv_base, dist.skip(i as int), rules@)
                        == step_fold(next@, pool@, new_cache@, dist.skip(i + 1), rules@));
                    assert(dist.take(i + 1) =~= dist.take(i as int).push(dist[i as int]));
                    lemma_mass_sum_push(dist.take(i as int), dist[i as int].0, dist[i as int].1);
                    if rules@.len() == 0 {
                        assert forall|k: u64| alist_contains(next@, k) implies alist_contains(
                            dist.take(i + 1),
                            k,
                        ) by {
                            crate::alist::lemma_find_contains(dist.take(i as int), k);
                            crate::alist::lemma_find_push(
                                dist.take(i as int),
                                dist[i as int].0,
                                dist[i as int].1,
                                k,
                            );
                            crate::alist::lemma_find_contains(dist.take(i + 1), k);
                        }
                    }
                }
            },
            Err(e) => {
                proof {
                    assert(step_base(nx_base, pv_base, cv_base, base_hash@, mass, rules@) is Err);
                    assert(step_fold(nx_base, pv_base, cv_base, dist.skip(i as int), rules@)
                        is Err);
                    if rules@.len() == 0 {
                        assert(alist_contains(nx_base, base_hash@));
                        assert(alist_contains(dist.take(i as int), base_hash@));
                        let w = choose|w: int|
                            0 <= w < dist.take(i as int).len() && (#[trigger] dist.take(
                                i as int,
                            )[w]).0 == base_hash@;
                        assert(dist.take(i as int)[w] == dist[w]);
                        assert(dist[i as int].0 == base_hash@);
                        assert(false);
                    }
                }
                return Err(e);
            },
        }
        i = i + 1;
    }
    proof {
        assert(dist.take(dist.len() as int) =~= dist);
        assert(dist.skip(dist.len() as int) =~= Seq::<(u64, u64)>::empty());
    }
    Ok((next, pool, new_cache))
}

/// The sum of the weights of an applicability list.
pub open spec fn weight_sum(s: Seq<(StateHash, u64)>) -> int
    decreases s.len(),
{
    if s.len() == 0 {
        0
    } else {
        s[0].1 + weight_sum(s.drop_first())
    }
}

/// Appending one pair adds its weight.
proof fn lemma_weight_sum_push(s: Seq<(StateHash, u64)>, p: (StateHash, u64))
    ensures
        weight_sum(s.push(p)) == weight_sum(s) + p.1,
    decreases s.len(),
{
    if s.len() == 0 {
        assert(s.push(p).drop_first() =~= Seq::<(StateHash, u64)>::empty());
        assert(s.push(p)[0] == p);
        assert(weight_sum(Seq::<(StateHash, u64)>::empty()) == 0);
    } else {
        assert(s.push(p).drop_first() =~= s.drop_first().push(p));
        lemma_weight_sum_push(s.drop_first(), p);
    }
}

/// A weight sum is never negative.
proof fn lemma_weight_sum_nonneg(s: Seq<(StateHash, u64)>)
    ensures
        weight_sum(s) >= 0,
    decreases s.len(),
{
    if s.len() > 0 {
        lemma_weight_sum_nonneg(s.drop_first());
    }
}

/// A prefix never outweighs the whole list.
proof fn lemma_weight_sum_take_le(s: Seq<(StateHash, u64)>, n: int)
    requires
        0 <= n <= s.len(),
    ensures
        weight_sum(s.take(n)) <= weight_sum(s),
    decreases s.len() - n,
{
    if n < s.len() {
        assert(s.take(n + 1) =~= s.take(n).push(s[n]));
        lemma_weight_sum_push(s.take(n), s[n]);
        lemma_weight_sum_take_le(s, n + 1);
    } else {
        assert(s.take(n) =~= s);
    }
}

/// The floor share of one rule stays within the base mass.
proof fn lemma_share_bounds(mass: u64, w: u64)
    requires
        mass <= SCALE,
        w <= SCALE,
    ensures
        (mass as int) * (w as int) / (SCALE as int) <= mass,
        (mass as int) * (w as int) / (SCALE as int) >= 0,
        (mass as int) * (w as int) < 0x1_0000_0000_0000_0000,
{
    assert((mass as int) * (w as int) < 0x1_0000_0000_0000_0000) by (nonlinear_arith)
        requires
            0 <= mass <= SCALE,
            0 <= w <= SCALE,
    ;
    assert((mass as int) * (w as int) <= (mass as int) * (SCALE as int)) by (nonlinear_arith)
        requires
            0 <= mass,
            w <= SCALE,
    ;
    assert((mass as int) * (SCALE as int) / (SCALE as int) == mass) by (nonlinear_arith)
        requires
            SCALE > 0,
    ;
    assert((mass as int) * (w as int) / (SCALE as int) <= (mass as int) * (SCALE as int) / (
    SCALE as int)) by (nonlinear_arith)
        requires
            0 <= (mass as int) * (w as int) <= (mass as int) * (SCALE as int),
            SCALE > 0,
    ;
    assert((mass as int) * (w as int) >= 0) by (nonlinear_arith)
        requires
            0 <= mass,
            0 <= w,
    ;
    assert((mass as int) * (w as int) / (SCALE as int) >= 0) by (nonlinear_arith)
        requires
            (mass as int) * (w as int) >= 0,
            SCALE > 0,
    ;
}

/// Depositing floor shares never overdraws the base mass: the invariant
/// step that keeps the running deposit within `mass * weight_sum / SCALE`.
proof fn lemma_deposit_step(mass: int, w: int, share: int, deposited: int, wsum_before: int)
    requires
        mass >= 0,
        w >= 0,
        wsum_before >= 0,
        share == mass * w / (SCALE as int),
        deposited * (SCALE as int) <= mass * wsum_before,
    ensures
        (deposited + share) * (SCALE as int) <= mass * (wsum_before + w),
        wsum_before + w <= SCALE ==> deposited + share <= mass,
{
    let s = SCALE as int;
    assert(share * s <= mass * w) by (nonlinear_arith)
        requires
            share == mass * w / s,
            s > 0,
            mass >= 0,
            w >= 0,
    ;
    assert((deposited + share) * s == deposited * s + share * s) by (nonlinear_arith);
    assert(mass * (wsum_before + w) == mass * wsum_before + mass * w) by (nonlinear_arith);
    if wsum_before + w <= SCALE {
        assert(mass * (wsum_before + w) <= mass * s) by (nonlinear_arith)
            requires
                mass >= 0,
                wsum_before + w <= s,
        ;
        assert((deposited + share) * s <= mass * s ==> deposited + share <= mass)
            by (nonlinear_arith)
            requires
                s > 0,
        ;
    }
}

} // verus!
