//! Rules: condition, weight and action.
//!
//! A rule fires at a base state when its weight is nonzero and its
//! condition holds there; its action then transforms the base state into a
//! successor. Evaluation is memoized: [`Rule::applies`] and
//! [`Rule::apply`] first consult the [`Cache`] and, on a miss, hand the
//! freshly computed entry back to the caller as an update record instead
//! of writing it in place, so a driver can batch and merge updates from
//! many evaluations.
//!
//! Conditions and actions are data, not callbacks: a pure function of the
//! state can be verified only when its meaning is written down, so the
//! variants below cover the persistable rule forms, and batches of
//! assignments take the place of computed assignment sets.

use vstd::prelude::*;

use crate::alist::{alist_contains, alist_find, alist_insert, lemma_find_contains, lemma_find_index};
use crate::cache::{Cache, CacheError, cache_action, cache_condition};
use crate::errors::{ErrorKind, NotFoundError};
use crate::state::{
    ActionName,
    Entity,
    EntityName,
    EntityView,
    PossibleStates,
    ResourceName,
    State,
    StateHash,
    StateView,
    entity_view_wf,
};
use crate::units::{Amount, ProbabilityWeight};

verus! {

/// The unique name of a rule.
#[derive(Debug)]
pub struct RuleName(pub String);

impl View for RuleName {
    type V = Seq<char>;

    open spec fn view(&self) -> Seq<char> {
        self.0@
    }
}

impl Clone for RuleName {
    fn clone(&self) -> (r: Self)
        ensures
            r@ == self@,
    {
        RuleName(self.0.clone())
    }
}

impl PartialEq for RuleName {
    fn eq(&self, other: &Self) -> (r: bool) {
        self.0 == other.0
    }
}

impl vstd::std_specs::cmp::PartialEqSpecImpl for RuleName {
    open spec fn obeys_eq_spec() -> bool {
        true
    }

    open spec fn eq_spec(&self, other: &Self) -> bool {
        self@ == other@
    }
}

impl From<String> for RuleName {
    fn from(s: String) -> (r: Self) {
        RuleName(s)
    }
}

impl vstd::std_specs::convert::FromSpecImpl<String> for RuleName {
    open spec fn obeys_from_spec() -> bool {
        true
    }

    open spec fn from_spec(s: String) -> Self {
        RuleName(s)
    }
}

impl RuleName {
    /// Builds a rule name from a string slice.
    pub fn new(name: &str) -> (r: Self)
        ensures
            r@ == name@,
    {
        RuleName(name.to_owned())
    }
}

/// Whether a rule fires: a boolean with explicit constructors, so that no
/// integer is ever mistaken for a firing flag.
#[derive(Clone, Copy, PartialEq, Eq, Structural, Debug, Hash)]
pub struct RuleApplies(pub bool);

impl View for RuleApplies {
    type V = bool;

    open spec fn view(&self) -> bool {
        self.0
    }
}

impl RuleApplies {
    /// Wraps a firing flag.
    pub fn new(applies: bool) -> (r: Self)
        ensures
            r@ == applies,
    {
        RuleApplies(applies)
    }

    /// Whether the rule fires.
    pub fn is_true(&self) -> (r: bool)
        ensures
            r == self@,
    {
        self.0
    }

    /// Whether the rule fires.
    pub fn applies(&self) -> (r: bool)
        ensures
            r == self@,
    {
        self.0
    }
}

/// When a rule fires: never, always, or exactly when one named resource
/// of one named entity holds a given amount.
#[derive(Clone, Debug)]
pub enum Condition {
    Never,
    Always,
    AmountEquals(EntityName, ResourceName, Amount),
}

/// Whether `condition` holds of the state abstracted by `sv`.
pub open spec fn condition_applies(condition: Condition, sv: StateView) -> bool {
    match condition {
        Condition::Never => false,
        Condition::Always => true,
        Condition::AmountEquals(e, r, a) => match alist_find(sv, e@) {
            Some(ev) => alist_find(ev, r@) == Some(a@),
            None => false,
        },
    }
}

/// Evaluates `condition` on `state`.
pub fn eval_condition(condition: &Condition, state: &State) -> (r: bool)
    ensures
        r == condition_applies(*condition, state@),
{
    match condition {
        Condition::Never => false,
        Condition::Always => true,
        Condition::AmountEquals(e, rn, a) => match state.entity(e) {
            Ok(ent) => match ent.resource(rn) {
                Ok(amt) => *amt == *a,
                Err(nf) => false,
            },
            Err(nf) => false,
        },
    }
}

/// What a rule does when it fires: the identity, one parameter
/// replaced, or one entity inserted wholesale.
#[derive(Clone, Debug)]
pub enum Action {
    Identity,
    SetParameter(EntityName, ResourceName, Amount),
    InsertEntity(EntityName, Entity),
}

impl Action {
    /// An action is well formed when any entity it inserts is.
    pub open spec fn wf(&self) -> bool {
        match self {
            Action::InsertEntity(e, ent) => entity_view_wf(ent@),
            _ => true,
        }
    }

    /// Builds the set-parameter action from its parts, resource first as
    /// the assignment records name it.
    pub fn from(resource: ResourceName, target: EntityName, amount: Amount) -> (r: Action)
        ensures
            r == Action::SetParameter(target, resource, amount),
    {
        Action::SetParameter(target, resource, amount)
    }
}

/// Whether `action` can be applied to the state abstracted by `sv`: a
/// set-parameter action needs its entity and resource present.
pub open spec fn action_ok(action: Action, sv: StateView) -> bool {
    match action {
        Action::Identity => true,
        Action::SetParameter(e, rn, v) => match alist_find(sv, e@) {
            Some(ev) => alist_contains(ev, rn@),
            None => false,
        },
        Action::InsertEntity(e, ent) => true,
    }
}

/// The state `action` produces from the state abstracted by `sv`, when
/// [`action_ok`] holds.
pub open spec fn action_result(action: Action, sv: StateView) -> StateView {
    match action {
        Action::Identity => sv,
        Action::SetParameter(e, rn, v) => match alist_find(sv, e@) {
            Some(ev) => alist_insert(sv, e@, alist_insert(ev, rn@, v@)),
            None => sv,
        },
        Action::InsertEntity(e, ent) => alist_insert(sv, e@, ent@),
    }
}

/// Applies `action` purely: the base state is untouched and the successor
/// is returned, or the exact reason the action does not apply.
pub fn apply_action(action: &Action, base_state: &State) -> (r: Result<State, ErrorKind>)
    requires
        base_state.wf(),
        action.wf(),
    ensures
        match r {
            Ok(st) => action_ok(*action, base_state@) && st@ == action_result(
                *action,
                base_state@,
            ) && st.wf(),
            Err(e) => !action_ok(*action, base_state@) && match e {
                ErrorKind::EntityNotFound(nf) => nf.key@ == action->SetParameter_0@ && nf.container@
                    == base_state@,
                ErrorKind::ResourceNotFound(nf) => nf.key@ == action->SetParameter_1@ && alist_find(
                    base_state@,
                    action->SetParameter_0@,
                ) == Some(nf.container@),
                _ => false,
            },
        },
{
    match action {
        Action::Identity => Ok(base_state.clone()),
        Action::SetParameter(e, rn, v) => {
            let mut st = base_state.clone();
            match st.set_parameter(e, rn, *v) {
                Ok(u) => {
                    proof {
                        lemma_find_contains(base_state@, e@);
                    }
                    Ok(st)
                },
                Err(err) => {
                    proof {
                        lemma_find_contains(base_state@, e@);
                    }
                    Err(err)
                },
            }
        },
        Action::InsertEntity(e, ent) => {
            let mut st = base_state.clone();
            st.insert_entity(e.clone(), ent.clone());
            Ok(st)
        },
    }
}

/// A named rule: a weighted, conditional transformation of states.
#[derive(Clone, Debug)]
pub struct Rule {
    pub description: String,
    pub condition: Condition,
    pub weight: ProbabilityWeight,
    pub action: Action,
}

impl Rule {
    /// A rule is well formed when its action is.
    pub open spec fn wf(&self) -> bool {
        self.action.wf()
    }

    /// Builds a rule from its description, condition, weight and action.
    pub fn new(
        description: String,
        condition: Condition,
        probability_weight: ProbabilityWeight,
        action: Action,
    ) -> (r: Rule)
        ensures
            r.description == description,
            r.condition == condition,
            r.weight == probability_weight,
            r.action == action,
    {
        Rule { description, condition, weight: probability_weight, action }
    }

    /// The rule's weight.
    pub fn weight(&self) -> (r: ProbabilityWeight)
        ensures
            r == self.weight,
    {
        self.weight
    }

    /// The rule's description.
    pub fn description(&self) -> (r: &String)
        ensures
            r == &self.description,
    {
        &self.description
    }

    /// The rule's condition.
    pub fn condition(&self) -> (r: &Condition)
        ensures
            r == &self.condition,
    {
        &self.condition
    }

    /// The rule's action.
    pub fn action(&self) -> (r: &Action)
        ensures
            r == &self.action,
    {
        &self.action
    }

    /// What [`Rule::applies`] answers: whether the rule fires at the
    /// state, and whether a fresh condition entry is produced. A weight of
    /// zero disables the rule outright; a cached entry is answered as it
    /// stands, without a new update; only a cache miss evaluates the
    /// condition and produces an update.
    pub open spec fn spec_applies(&self, cv: Seq<(Seq<char>, crate::cache::RuleCacheView)>, rule_name: Seq<char>, sv: StateView) -> (
        bool,
        bool,
    ) {
        if self.weight@ == 0 {
            (false, false)
        } else {
            match cache_condition(cv, rule_name, crate::hashing::state_hash_of(sv)) {
                Some(b) => (b, false),
                None => (condition_applies(self.condition, sv), true),
            }
        }
    }

    /// Evaluates the rule's condition at `state` through the cache, and
    /// reports the firing flag together with the condition entry to add,
    /// if the cache lacked one.
    pub fn applies(&self, cache: &Cache, rule_name: RuleName, state: State) -> (r: Result<
        (RuleApplies, Option<crate::cache::ConditionCacheUpdate>),
        CacheError,
    >)
        ensures
            r matches Ok(pair) && {
                let (fires, produced) = self.spec_applies(cache@, rule_name@, state@);
                &&& pair.0@ == fires
                &&& pair.1 is Some == produced
                &&& match pair.1 {
                    Some(u) => u.rule_name@ == rule_name@ && u.base_state_hash@
                        == crate::hashing::state_hash_of(state@) && u.applies@ == fires,
                    None => true,
                }
            },
    {
        if self.weight.parts() == 0 {
            return Ok((RuleApplies(false), None));
        }
        let base_state_hash = StateHash::from_state(&state);
        match cache.contains_condition(&rule_name, &base_state_hash) {
            Ok(cached) => {
                if cached {
                    match cache.condition(&rule_name, &base_state_hash) {
                        Ok(v) => Ok(((*v), None)),
                        Err(e) => {
                            proof {
                                assert(false);
                            }
                            Err(e)
                        },
                    }
                } else {
                    let fires = eval_condition(&self.condition, &state);
                    let update = crate::cache::ConditionCacheUpdate {
                        rule_name,
                        base_state_hash,
                        applies: RuleApplies(fires),
                    };
                    Ok((RuleApplies(fires), Some(update)))
                }
            },
            Err(e) => {
                proof {
                    assert(false);
                }
                Err(e)
            },
        }
    }

    /// Applies the rule's action to `base_state` through the cache. A
    /// cached successor is looked up in the pool and answered without an
    /// update; a miss computes the successor purely and reports the action
    /// entry to add. Only call this when the rule fires at `base_state`.
    pub fn apply(
        &self,
        cache: &Cache,
        possible_states: &PossibleStates,
        rule_name: RuleName,
        base_state_hash: StateHash,
        base_state: State,
    ) -> (r: Result<(State, Option<crate::cache::ActionCacheUpdate>), ErrorKind>)
        requires
            base_state.wf(),
            possible_states.wf(),
            self.wf(),
        ensures
            match r {
                Ok(pair) => pair.0.wf() && match cache_action(
                    cache@,
                    rule_name@,
                    base_state_hash@,
                ) {
                    Some(nh) => alist_find(possible_states@, nh) == Some(pair.0@) && pair.1
                        is None,
                    None => {
                        &&& action_ok(self.action, base_state@)
                        &&& pair.0@ == action_result(self.action, base_state@)
                        &&& pair.1 matches Some(u) && u.rule_name@ == rule_name@
                            && u.base_state_hash@ == base_state_hash@ && u.new_state_hash@
                            == crate::hashing::state_hash_of(pair.0@)
                    },
                },
                Err(e) => match cache_action(cache@, rule_name@, base_state_hash@) {
                    Some(nh) => alist_find(possible_states@, nh) == None::<StateView> && (e matches
                    ErrorKind::StateNotFound(h) && h@ == nh),
                    None => !action_ok(self.action, base_state@) && match e {
                        ErrorKind::EntityNotFound(nf) => nf.key@ == self.action->SetParameter_0@
                            && nf.container@ == base_state@,
                        ErrorKind::ResourceNotFound(nf) => nf.key@ == self.action->SetParameter_1@
                            && alist_find(base_state@, self.action->SetParameter_0@) == Some(
                            nf.container@,
                        ),
                        _ => false,
                    },
                },
            },
    {
        match cache.contains_action(&rule_name, &base_state_hash) {
            Ok(cached) => {
                if cached {
                    match cache.action(&rule_name, &base_state_hash) {
                        Ok(new_state_hash) => {
                            match possible_states.state(&new_state_hash) {
                                Some(st) => {
                                    proof {
                                        lemma_find_contains(possible_states@, new_state_hash@);
                                        lemma_find_index(possible_states@, new_state_hash@);
                                    }
                                    Ok((st.clone(), None))
                                },
                                None => Err(ErrorKind::StateNotFound(new_state_hash)),
                            }
                        },
                        Err(e) => {
                            proof {
                                assert(false);
                            }
                            Err(ErrorKind::CacheErr(e))
                        },
                    }
                } else {
                    match apply_action(&self.action, &base_state) {
                        Ok(new_state) => {
                            let new_state_hash = StateHash::from_state(&new_state);
                            let update = crate::cache::ActionCacheUpdate {
                                rule_name,
                                base_state_hash,
                                new_state_hash,
                            };
                            Ok((new_state, Some(update)))
                        },
                        Err(e) => Err(e),
                    }
                }
            },
            Err(e) => {
                proof {
                    assert(false);
                }
                Err(ErrorKind::CacheErr(e))
            },
        }
    }
}

/// Whether two actions assign to the same parameter of the same entity.
pub open spec fn conflicting(a: Action, b: Action) -> bool {
    match (a, b) {
        (Action::SetParameter(e1, r1, v1), Action::SetParameter(e2, r2, v2)) => e1@ == e2@ && r1@
            == r2@,
        _ => false,
    }
}

/// Whether some pair of actions in the batch conflicts.
pub open spec fn has_conflict(acts: Seq<Action>) -> bool {
    exists|i: int, j: int|
        0 <= i < j < acts.len() && conflicting(#[trigger] acts[i], #[trigger] acts[j])
}

/// The state a conflict-free batch produces, applied front to back with
/// [`apply_action`]'s semantics; the first inapplicable action fails the
/// whole batch.
pub open spec fn batch_result(sv: StateView, acts: Seq<Action>) -> Result<StateView, ()>
    decreases acts.len(),
{
    if acts.len() == 0 {
        Ok(sv)
    } else if !action_ok(acts[0], sv) {
        Err(())
    } else {
        batch_result(action_result(acts[0], sv), acts.drop_first())
    }
}

impl State {
    /// Applies a named batch of actions to this state, each with
    /// set-parameter semantics. Two assignments aiming at the same
    /// parameter of the same entity are a conflict and an error; a missing
    /// entity or resource is reported exactly as [`apply_action`] does.
    /// The base state is never touched; on success the result is the
    /// batch fold [`batch_result`].
    #[verifier::loop_isolation(false)]
    pub fn apply_actions(&self, actions: &Vec<(ActionName, Action)>) -> (r: Result<
        State,
        ErrorKind,
    >)
        requires
            self.wf(),
            forall|i: int| 0 <= i < actions@.len() ==> (#[trigger] actions@[i]).1.wf(),
        ensures
            ({
                let acts = actions@.map_values(|p: (ActionName, Action)| p.1);
                match r {
                    Ok(st) => !has_conflict(acts) && batch_result(self@, acts) == Ok::<
                        StateView,
                        (),
                    >(st@) && st.wf(),
                    Err(e) => has_conflict(acts) || batch_result(self@, acts) is Err,
                }
            }),
    {
        let ghost acts = actions@.map_values(|p: (ActionName, Action)| p.1);
        let mut i: usize = 0;
        let n = actions.len();
        while i < n
            invariant
                i <= n,
                n == acts.len(),
                acts == actions@.map_values(|p: (ActionName, Action)| p.1),
                forall|a: int, b: int|
                    0 <= a < i && a < b < n ==> !conflicting(#[trigger] acts[a], #[trigger] acts[b]),
            decreases n - i,
        {
            if let Action::SetParameter(ei, ri, vi) = &actions[i].1 {
                let mut j: usize = i + 1;
                while j < n
                    invariant
                        i < j <= n,
                        n == acts.len(),
                        acts == actions@.map_values(|p: (ActionName, Action)| p.1),
                        actions@[i as int].1 == Action::SetParameter(*ei, *ri, *vi),
                        forall|b: int|
                            i < b < j ==> !conflicting(acts[i as int], #[trigger] acts[b]),
                    decreases n - j,
                {
                    if let Action::SetParameter(ej, rj, vj) = &actions[j].1 {
                        if *ei == *ej && *ri == *rj {
                            proof {
                                assert(conflicting(acts[i as int], acts[j as int]));
                            }
                            return Err(
                                ErrorKind::Conflict(
                                    actions[i].0.clone(),
                                    actions[j].0.clone(),
                                    ei.clone(),
                                    ri.clone(),
                                ),
                            );
                        }
                    }
                    j = j + 1;
                }
            } else {
                proof {
                    assert(forall|b: int|
                        i < b < n ==> !conflicting(acts[i as int], #[trigger] acts[b]));
                }
            }
            i = i + 1;
        }
        proof {
            assert(!has_conflict(acts));
        }
        let mut st = self.clone();
        let mut k: usize = 0;
        proof {
            assert(acts.skip(0) =~= acts);
        }
        while k < n
            invariant
                k <= n,
                n == acts.len(),
                acts == actions@.map_values(|p: (ActionName, Action)| p.1),
                st.wf(),
                !has_conflict(acts),
                batch_result(self@, acts) == batch_result(st@, acts.skip(k as int)),
                forall|m: int| 0 <= m < actions@.len() ==> (#[trigger] actions@[m]).1.wf(),
            decreases n - k,
        {
            proof {
                assert(acts.skip(k as int)[0] == acts[k as int]);
                assert(acts.skip(k as int).drop_first() =~= acts.skip(k + 1));
            }
            match apply_action(&actions[k].1, &st) {
                Ok(next) => {
                    st = next;
                },
                Err(e) => {
                    return Err(e);
                },
            }
            k = k + 1;
        }
        proof {
            assert(acts.skip(n as int) =~= Seq::<Action>::empty());
        }
        Ok(st)
    }
}

/// An error surfaced by a registry of named rules: the name asked for is
/// absent, or the name to be added is already taken.
#[derive(Clone, Debug, PartialEq)]
pub enum RuleError {
    RuleNotFound { rule_name: RuleName },
    RuleAlreadyExists { rule_name: RuleName },
}

/// Idempotent hits: when evaluating a rule produced a fresh condition
/// entry, writing that entry into the cache makes a second evaluation of
/// the same rule at the same state a pure cache hit, answering the same
/// firing flag and producing no further update.
pub proof fn lemma_warm_cache_idempotent(
    rule: Rule,
    cv: crate::cache::CacheView,
    rule_name: Seq<char>,
    sv: StateView,
)
    requires
        crate::cache::cache_view_wf(cv),
        rule.spec_applies(cv, rule_name, sv).1,
    ensures
        ({
            let fires = rule.spec_applies(cv, rule_name, sv).0;
            let h = crate::hashing::state_hash_of(sv);
            &&& Cache::spec_add_condition(cv, rule_name, h, fires) is Ok
            &&& (Cache::spec_add_condition(cv, rule_name, h, fires) matches Ok(cv2) ==> rule
                .spec_applies(cv2, rule_name, sv) == (fires, false))
        }),
{
    let fires = rule.spec_applies(cv, rule_name, sv).0;
    let h = crate::hashing::state_hash_of(sv);
    assert(cache_condition(cv, rule_name, h) is None);
    match alist_find(cv, rule_name) {
        None => {},
        Some(rc) => {
            assert(alist_find(rc.0, h) is None);
        },
    }
    assert(Cache::spec_add_condition(cv, rule_name, h, fires) is Ok);
    match Cache::spec_add_condition(cv, rule_name, h, fires) {
        Ok(cv2) => {
            crate::cache::lemma_spec_add_condition_find(cv, rule_name, h, fires, rule_name, h);
            assert(cache_condition(cv2, rule_name, h) == Some(fires));
        },
        Err(w) => {},
    }
}

} // verus!
