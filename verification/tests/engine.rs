use entromatica::cache::Cache;
use entromatica::distribution::ReachableStates;
use entromatica::errors::ErrorKind;
use entromatica::rules::{Action, Condition, Rule, RuleApplies, RuleName};
use entromatica::state::{Entity, EntityName, PossibleStates, ResourceName, State, StateHash};
use entromatica::step::advance_step;
use entromatica::units::{Amount, Probability, ProbabilityWeight, SCALE};

fn amount(x: f64) -> Amount {
    Amount::new(x.to_bits())
}

fn single_state_setup(state: State) -> (ReachableStates, PossibleStates, Cache) {
    let h = StateHash::from_state(&state);
    let mut reachable = ReachableStates::new();
    reachable.append_state(h, Probability::one()).unwrap();
    let mut pool = PossibleStates::new();
    pool.append_state(h, state).unwrap();
    (reachable, pool, Cache::new())
}

fn named_rule(name: &str, condition: Condition, weight_parts: u64, action: Action) -> (
    RuleName,
    Rule,
) {
    (
        RuleName::new(name),
        Rule::new(name.to_string(), condition, ProbabilityWeight::from_parts(weight_parts), action),
    )
}

#[test]
fn always_identity_rule_keeps_all_mass_in_place() {
    let state = State::new();
    let h0 = StateHash::from_state(&state);
    let (reachable, pool, cache) = single_state_setup(state);
    let rules = vec![named_rule("r", Condition::Always, SCALE, Action::Identity)];
    let (next, new_pool, new_cache) = advance_step(&reachable, &pool, &cache, &rules).unwrap();
    assert_eq!(next.len(), 1);
    assert_eq!(next.probability(&h0), Some(Probability::one()));
    assert_eq!(
        new_cache
            .condition(&RuleName::new("r"), &h0)
            .cloned()
            .unwrap(),
        RuleApplies::new(true)
    );
    assert_eq!(new_cache.action(&RuleName::new("r"), &h0).unwrap(), h0);
    assert_eq!(new_pool.len(), 1);
}

#[test]
fn never_rule_stays_put() {
    let state = State::new();
    let h0 = StateHash::from_state(&state);
    let (reachable, pool, cache) = single_state_setup(state);
    let rules = vec![named_rule("r", Condition::Never, SCALE, Action::Identity)];
    let (next, _new_pool, new_cache) = advance_step(&reachable, &pool, &cache, &rules).unwrap();
    assert_eq!(next.len(), 1);
    assert_eq!(next.probability(&h0), Some(Probability::one()));
    assert_eq!(
        new_cache
            .condition(&RuleName::new("r"), &h0)
            .cloned()
            .unwrap(),
        RuleApplies::new(false)
    );
    new_cache.action(&RuleName::new("r"), &h0).unwrap_err();
}

fn base_counter_state(value: f64) -> State {
    State::from_entities(vec![(
        EntityName::from("A".to_string()),
        Entity::from_resources(vec![(ResourceName::from("Resource".to_string()), amount(value))]),
    )])
}

#[test]
fn competing_rules_split_mass_with_stay_put_residual() {
    let state = base_counter_state(0.);
    let h0 = StateHash::from_state(&state);
    let (reachable, pool, cache) = single_state_setup(state);
    let rules = vec![
        named_rule(
            "to_one",
            Condition::Always,
            300_000_000,
            Action::from(
                ResourceName::from("Resource".to_string()),
                EntityName::from("A".to_string()),
                amount(1.),
            ),
        ),
        named_rule(
            "to_two",
            Condition::Always,
            500_000_000,
            Action::from(
                ResourceName::from("Resource".to_string()),
                EntityName::from("A".to_string()),
                amount(2.),
            ),
        ),
    ];
    let (next, new_pool, _new_cache) = advance_step(&reachable, &pool, &cache, &rules).unwrap();
    let h1 = StateHash::from_state(&base_counter_state(1.));
    let h2 = StateHash::from_state(&base_counter_state(2.));
    assert_eq!(next.len(), 3);
    assert_eq!(next.probability(&h1), Some(Probability::new(300_000_000).unwrap()));
    assert_eq!(next.probability(&h2), Some(Probability::new(500_000_000).unwrap()));
    assert_eq!(next.probability(&h0), Some(Probability::new(200_000_000).unwrap()));
    assert_eq!(next.probability_sum(), SCALE as u128);
    assert_eq!(new_pool.len(), 3);
}

#[test]
fn advance_step_conserves_mass_across_two_steps() {
    let state = base_counter_state(0.);
    let (reachable, pool, cache) = single_state_setup(state);
    let rules = vec![
        named_rule(
            "up",
            Condition::AmountEquals(
                EntityName::from("A".to_string()),
                ResourceName::from("Resource".to_string()),
                amount(0.),
            ),
            500_000_000,
            Action::from(
                ResourceName::from("Resource".to_string()),
                EntityName::from("A".to_string()),
                amount(1.),
            ),
        ),
    ];
    let (next, pool2, cache2) = advance_step(&reachable, &pool, &cache, &rules).unwrap();
    assert_eq!(next.probability_sum(), SCALE as u128);
    let (next2, _pool3, _cache3) = advance_step(&next, &pool2, &cache2, &rules).unwrap();
    assert_eq!(next2.probability_sum(), SCALE as u128);
}

#[test]
fn advance_step_is_deterministic() {
    let state = base_counter_state(0.);
    let (reachable, pool, cache) = single_state_setup(state);
    let rules = vec![
        named_rule(
            "up",
            Condition::Always,
            250_000_000,
            Action::from(
                ResourceName::from("Resource".to_string()),
                EntityName::from("A".to_string()),
                amount(1.),
            ),
        ),
    ];
    let first = advance_step(&reachable, &pool, &cache, &rules).unwrap();
    let second = advance_step(&reachable, &pool, &cache, &rules).unwrap();
    assert_eq!(first.0, second.0);
    assert_eq!(first.1, second.1);
    assert_eq!(first.2, second.2);
}

#[test]
fn overweight_rules_are_rejected() {
    let state = State::new();
    let (reachable, pool, cache) = single_state_setup(state);
    let rules = vec![
        named_rule("a", Condition::Always, 700_000_000, Action::Identity),
        named_rule("b", Condition::Always, 600_000_000, Action::Identity),
    ];
    match advance_step(&reachable, &pool, &cache, &rules) {
        Err(ErrorKind::OutOfRange(_)) => {},
        other => panic!("expected an out-of-range error, got {:?}", other.is_ok()),
    }
}

#[test]
fn missing_base_state_is_reported() {
    let mut reachable = ReachableStates::new();
    reachable
        .append_state(StateHash::from_state(&State::new()), Probability::one())
        .unwrap();
    let pool = PossibleStates::new();
    let cache = Cache::new();
    let rules: Vec<(RuleName, Rule)> = Vec::new();
    match advance_step(&reachable, &pool, &cache, &rules) {
        Err(ErrorKind::StateNotFound(_)) => {},
        other => panic!("expected a missing-state error, got {:?}", other.is_ok()),
    }
}

#[test]
fn missing_entity_in_action_is_reported() {
    let state = State::new();
    let (reachable, pool, cache) = single_state_setup(state);
    let rules = vec![
        named_rule(
            "broken",
            Condition::Always,
            SCALE,
            Action::from(
                ResourceName::from("Resource".to_string()),
                EntityName::from("A".to_string()),
                amount(1.),
            ),
        ),
    ];
    match advance_step(&reachable, &pool, &cache, &rules) {
        Err(ErrorKind::EntityNotFound(_)) => {},
        other => panic!("expected a missing-entity error, got {:?}", other.is_ok()),
    }
}

#[test]
fn graph_renders_cached_firings() {
    let state = State::new();
    let h0 = StateHash::from_state(&state);
    let (reachable, pool, cache) = single_state_setup(state);
    let rules = vec![named_rule("r", Condition::Always, SCALE, Action::Identity)];
    let (_next, new_pool, new_cache) = advance_step(&reachable, &pool, &cache, &rules).unwrap();
    let graph = new_cache.graph(&new_pool).unwrap();
    assert_eq!(graph.node_count(), 1);
    assert_eq!(graph.edge_count(), 1);
    assert_eq!(
        graph.node_weight(petgraph::graph::NodeIndex::new(0)),
        Some(&h0)
    );
    let edge = graph.edge_indices().next().unwrap();
    assert_eq!(
        graph.edge_endpoints(edge),
        Some((
            petgraph::graph::NodeIndex::new(0),
            petgraph::graph::NodeIndex::new(0)
        ))
    );
    assert_eq!(graph.edge_weight(edge), Some(&RuleName::new("r")));
}

#[test]
fn graph_reports_missing_condition_entries() {
    let state = State::new();
    let h0 = StateHash::from_state(&state);
    let mut pool = PossibleStates::new();
    pool.append_state(h0, State::new()).unwrap();
    let mut cache = Cache::new();
    cache
        .add_action(RuleName::new("r"), h0, h0)
        .unwrap();
    cache.graph(&pool).unwrap_err();
}

#[test]
fn insert_entity_rule_adds_the_entity() {
    let state = State::new();
    let h0 = StateHash::from_state(&state);
    let (reachable, pool, cache) = single_state_setup(state);
    let inserted = Entity::from_resources(vec![(
        ResourceName::from("Resource".to_string()),
        amount(7.),
    )]);
    let rules = vec![named_rule(
        "spawn",
        Condition::Always,
        SCALE,
        Action::InsertEntity(EntityName::from("A".to_string()), inserted.clone()),
    )];
    let (next, new_pool, _new_cache) = advance_step(&reachable, &pool, &cache, &rules).unwrap();
    let expected = State::from_entities(vec![(EntityName::from("A".to_string()), inserted)]);
    let h1 = StateHash::from_state(&expected);
    assert_ne!(h0, h1);
    assert_eq!(next.probability(&h1), Some(Probability::one()));
    assert_eq!(new_pool.state(&h1), Some(&expected));
}
