use entromatica::cache::{ActionCacheUpdate, Cache, ConditionCacheUpdate};
use entromatica::rules::{Action, Condition, Rule, RuleApplies, RuleName};
use entromatica::state::{Entity, EntityName, PossibleStates, ResourceName, State, StateHash};
use entromatica::units::{Amount, ProbabilityWeight, SCALE};

#[test]
fn cache_add_should_work() {
    let mut cache = Cache::new();
    let rule_name = RuleName::new("test");
    let base_state_hash = StateHash::from_state(&State::new());
    let new_state_hash = StateHash::from_state(&State::new());
    let applies = RuleApplies::new(true);
    cache
        .add_condition(rule_name.clone(), base_state_hash, applies)
        .unwrap();
    cache
        .add_action(rule_name.clone(), base_state_hash, new_state_hash)
        .unwrap();
    assert_eq!(
        cache
            .condition(&rule_name, &base_state_hash)
            .cloned()
            .unwrap(),
        applies
    );
    assert_eq!(
        cache.action(&rule_name, &base_state_hash).unwrap(),
        new_state_hash
    );
}

#[test]
fn cache_no_overwriting_values() {
    let mut cache = Cache::new();
    let rule_name = RuleName::new("test");
    let base_state_hash = StateHash::from_state(&State::new());
    let new_state_hash = StateHash::from_state(&State::new());
    let applies = RuleApplies::new(true);
    cache
        .add_condition(rule_name.clone(), base_state_hash, applies)
        .unwrap();
    cache
        .add_action(rule_name.clone(), base_state_hash, new_state_hash)
        .unwrap();
    let new_new_state_hash = StateHash::from_state(&State::from_entities(vec![(
        EntityName::from("A".to_string()),
        Entity::from_resources(vec![(
            ResourceName::from("Parameter".to_string()),
            Amount::new(1),
        )]),
    )]));
    let new_applies = RuleApplies::new(false);
    cache
        .add_condition(rule_name.clone(), base_state_hash, new_applies)
        .unwrap_err();
    cache
        .add_action(rule_name.clone(), base_state_hash, new_new_state_hash)
        .unwrap_err();
    assert_eq!(
        cache
            .condition(&rule_name, &base_state_hash)
            .cloned()
            .unwrap(),
        applies
    );
    assert_eq!(
        cache.action(&rule_name, &base_state_hash).unwrap(),
        new_state_hash
    );
}

#[test]
fn cache_apply_updates() {
    let mut cache = Cache::new();
    let rule_name = RuleName::new("test");
    let base_state_hash = StateHash::from_state(&State::new());
    let new_state_hash = StateHash::from_state(&State::new());
    let applies = RuleApplies::new(true);
    let condition_update = ConditionCacheUpdate::new(rule_name.clone(), base_state_hash, applies);
    let action_update = ActionCacheUpdate::new(rule_name.clone(), base_state_hash, new_state_hash);
    cache.apply_condition_update(condition_update).unwrap();
    cache.apply_action_update(action_update).unwrap();
    assert_eq!(
        cache
            .condition(&rule_name, &base_state_hash)
            .cloned()
            .unwrap(),
        applies
    );
    assert_eq!(
        cache.action(&rule_name, &base_state_hash).unwrap(),
        new_state_hash
    );
}

#[test]
fn applies_should_return_empty_cache_update_on_found_cache() {
    let mut cache = Cache::new();
    let rule = Rule::new(
        "Only for testing purposes".to_string(),
        Condition::Always,
        ProbabilityWeight::from_parts(SCALE),
        Action::Identity,
    );
    let rule_name = RuleName::new("Test");
    let state = State::new();
    let state_hash = StateHash::from_state(&state);
    cache
        .add_condition(rule_name.clone(), state_hash, RuleApplies::new(true))
        .unwrap();
    let (rule_applies, cache_update) = rule.applies(&cache, rule_name, state).unwrap();
    assert_eq!(rule_applies, RuleApplies::new(true));
    assert_eq!(cache_update, None);
}

#[test]
fn applies_should_return_proper_cache_update_on_missing_cache() {
    let cache = Cache::new();
    let rule = Rule::new(
        "Only for testing purposes".to_string(),
        Condition::Always,
        ProbabilityWeight::from_parts(SCALE),
        Action::Identity,
    );
    let rule_name = RuleName::new("Test");
    let state = State::new();
    let (rule_applies, cache_update) = rule.applies(&cache, rule_name, state.clone()).unwrap();
    assert_eq!(rule_applies, RuleApplies::new(true));
    assert_eq!(
        cache_update,
        Some(ConditionCacheUpdate::new(
            RuleName::new("Test"),
            StateHash::from_state(&state),
            RuleApplies::new(true),
        ))
    );
}

#[test]
fn apply_should_return_empty_cache_update_on_found_cache() {
    let mut cache = Cache::new();
    let rule = Rule::new(
        "Only for testing purposes".to_string(),
        Condition::Always,
        ProbabilityWeight::from_parts(SCALE),
        Action::Identity,
    );
    let rule_name = RuleName::new("Test");
    let state = State::new();
    let state_hash = StateHash::from_state(&state);
    let mut possible_states = PossibleStates::new();
    possible_states
        .append_state(state_hash, state.clone())
        .unwrap();
    cache
        .add_action(rule_name.clone(), state_hash, state_hash)
        .unwrap();
    let (new_state, cache_update) = rule
        .apply(
            &cache,
            &possible_states,
            rule_name,
            state_hash,
            state.clone(),
        )
        .unwrap();
    assert_eq!(new_state, state);
    assert_eq!(cache_update, None);
}

#[test]
fn apply_should_return_proper_cache_update_on_missing_cache() {
    let cache = Cache::new();
    let rule = Rule::new(
        "Only for testing purposes".to_string(),
        Condition::Always,
        ProbabilityWeight::from_parts(SCALE),
        Action::Identity,
    );
    let rule_name = RuleName::new("Test");
    let state = State::new();
    let state_hash = StateHash::from_state(&state);
    let possible_states = PossibleStates::new();
    let (new_state, cache_update) = rule
        .apply(
            &cache,
            &possible_states,
            rule_name,
            state_hash,
            state.clone(),
        )
        .unwrap();
    assert_eq!(new_state, state);
    assert_eq!(
        cache_update,
        Some(ActionCacheUpdate::new(
            RuleName::new("Test"),
            StateHash::from_state(&state),
            StateHash::from_state(&state),
        ))
    );
}

#[test]
fn weight_zero_rule_never_fires() {
    let cache = Cache::new();
    let rule = Rule::new(
        "weightless".to_string(),
        Condition::Always,
        ProbabilityWeight::new(),
        Action::Identity,
    );
    let (rule_applies, cache_update) = rule
        .applies(&cache, RuleName::new("Test"), State::new())
        .unwrap();
    assert_eq!(rule_applies, RuleApplies::new(false));
    assert_eq!(cache_update, None);
}

#[test]
fn merge_accepts_agreeing_caches_and_rejects_conflicts() {
    let h = StateHash::from_state(&State::new());
    let mut a = Cache::new();
    a.add_condition(RuleName::new("r"), h, RuleApplies::new(true))
        .unwrap();
    let mut b = Cache::new();
    b.add_condition(RuleName::new("r"), h, RuleApplies::new(true))
        .unwrap();
    a.merge(&b).unwrap();
    assert_eq!(a.condition(&RuleName::new("r"), &h).cloned().unwrap(), RuleApplies::new(true));

    let mut c = Cache::new();
    c.add_condition(RuleName::new("r"), h, RuleApplies::new(false))
        .unwrap();
    a.merge(&c).unwrap_err();
}

#[test]
fn cache_missing_rule_is_not_an_error_for_contains() {
    let cache = Cache::new();
    let h = StateHash::from_state(&State::new());
    assert_eq!(
        cache.contains_condition(&RuleName::new("missing"), &h),
        Ok(false)
    );
    assert_eq!(
        cache.contains_action(&RuleName::new("missing"), &h),
        Ok(false)
    );
    cache.condition(&RuleName::new("missing"), &h).unwrap_err();
    cache.action(&RuleName::new("missing"), &h).unwrap_err();
}

#[test]
fn cache_rewriting_the_same_value_is_ok() {
    let mut cache = Cache::new();
    let h = StateHash::from_state(&State::new());
    cache
        .add_condition(RuleName::new("r"), h, RuleApplies::new(true))
        .unwrap();
    cache
        .add_condition(RuleName::new("r"), h, RuleApplies::new(true))
        .unwrap();
    cache.add_action(RuleName::new("r"), h, h).unwrap();
    cache.add_action(RuleName::new("r"), h, h).unwrap();
    assert_eq!(
        cache.condition(&RuleName::new("r"), &h).cloned().unwrap(),
        RuleApplies::new(true)
    );
    assert_eq!(cache.action(&RuleName::new("r"), &h).unwrap(), h);
}

#[test]
fn merge_result_holds_the_union_of_both_caches() {
    let h0 = StateHash::from_state(&State::new());
    let h1 = StateHash::from_state(&State::from_entities(vec![(
        EntityName::from("A".to_string()),
        Entity::from_resources(vec![(ResourceName::from("r".to_string()), Amount::new(1))]),
    )]));
    let mut a = Cache::new();
    a.add_condition(RuleName::new("r1"), h0, RuleApplies::new(true))
        .unwrap();
    let mut b = Cache::new();
    b.add_condition(RuleName::new("r2"), h1, RuleApplies::new(false))
        .unwrap();
    b.add_action(RuleName::new("r2"), h1, h0).unwrap();
    a.merge(&b).unwrap();
    assert_eq!(
        a.condition(&RuleName::new("r1"), &h0).cloned().unwrap(),
        RuleApplies::new(true)
    );
    assert_eq!(
        a.condition(&RuleName::new("r2"), &h1).cloned().unwrap(),
        RuleApplies::new(false)
    );
    assert_eq!(a.action(&RuleName::new("r2"), &h1).unwrap(), h0);
}
