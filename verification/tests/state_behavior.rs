use entromatica::distribution::ReachableStates;
use entromatica::errors::NotFoundError;
use entromatica::rules::Action;
use entromatica::state::{ActionName, Entity, EntityName, PossibleStates, ResourceName, State, StateHash};
use entromatica::units::{Amount, Entropy, Probability, SCALE};

fn amount(x: f64) -> Amount {
    Amount::new(x.to_bits())
}

#[test]
fn entity_get_resource_should_return_value_on_present_resource() {
    let resources = vec![(ResourceName::from("resource".to_string()), amount(1.))];
    let entity = Entity::from_resources(resources);
    assert_eq!(
        entity
            .resource(&ResourceName::from("resource".to_string()))
            .cloned(),
        Result::Ok(amount(1.))
    );
}

#[test]
fn entity_get_resource_should_return_error_on_missing_resource() {
    let resources = vec![(ResourceName::from("resource".to_string()), amount(1.))];
    let entity = Entity::from_resources(resources);
    assert_eq!(
        entity.resource(&ResourceName::from("missing_resource".to_string())),
        Result::Err(NotFoundError::new(
            ResourceName::from("missing_resource".to_string()),
            entity.clone()
        ))
    );
}

#[test]
fn state_partial_equal_works_as_expected() {
    let state_a_0 = State::from_entities(vec![(
        EntityName::from("A".to_string()),
        Entity::from_resources(vec![(ResourceName::from("Resource".to_string()), amount(0.))]),
    )]);
    let state_a_1 = State::from_entities(vec![(
        EntityName::from("A".to_string()),
        Entity::from_resources(vec![(ResourceName::from("Resource".to_string()), amount(0.))]),
    )]);
    let state_b = State::from_entities(vec![(
        EntityName::from("A".to_string()),
        Entity::from_resources(vec![(ResourceName::from("Resource".to_string()), amount(1.))]),
    )]);
    let state_c = State::from_entities(vec![(
        EntityName::from("B".to_string()),
        Entity::from_resources(vec![(ResourceName::from("Resource".to_string()), amount(1.))]),
    )]);
    assert_eq!(state_a_0, state_a_1);
    assert_ne!(state_a_0, state_b);
    assert_ne!(state_a_1, state_b);
    assert_ne!(state_b, state_c);
}

#[test]
fn state_get_entity_should_return_value_on_present_entity() {
    let state = State::from_entities(vec![(
        EntityName::from("A".to_string()),
        Entity::from_resources(vec![(ResourceName::from("Resource".to_string()), amount(0.))]),
    )]);

    assert_eq!(
        state.entity(&EntityName::from("A".to_string())).cloned(),
        Ok(Entity::from_resources(vec![(
            ResourceName::from("Resource".to_string()),
            amount(0.)
        )]))
    );
}

#[test]
fn state_get_entity_should_return_error_on_missing_entity() {
    let state = State::from_entities(vec![(
        EntityName::from("A".to_string()),
        Entity::from_resources(vec![(ResourceName::from("Resource".to_string()), amount(0.))]),
    )]);
    assert_eq!(
        state
            .entity(&EntityName::from("missing_entity".to_string()))
            .cloned(),
        Err(NotFoundError::new(
            EntityName::from("missing_entity".to_string()),
            state
        ))
    );
}

#[test]
fn apply_actions_should_apply_actions_to_state() {
    let state = State::from_entities(vec![(
        EntityName::from("A".to_string()),
        Entity::from_resources(vec![
            (ResourceName::from("Resource".to_string()), amount(0.)),
            (ResourceName::from("Resource2".to_string()), amount(0.)),
        ]),
    )]);
    let actions = vec![
        (
            ActionName::from("Action 1".to_string()),
            Action::from(
                ResourceName::from("Resource".to_string()),
                EntityName::from("A".to_string()),
                amount(1.),
            ),
        ),
        (
            ActionName::from("Action 2".to_string()),
            Action::from(
                ResourceName::from("Resource2".to_string()),
                EntityName::from("A".to_string()),
                amount(2.),
            ),
        ),
    ];
    let new_state = state.apply_actions(&actions).unwrap();
    assert_eq!(
        new_state,
        State::from_entities(vec![(
            EntityName::from("A".to_string()),
            Entity::from_resources(vec![
                (ResourceName::from("Resource".to_string()), amount(1.)),
                (ResourceName::from("Resource2".to_string()), amount(2.)),
            ]),
        )])
    );
}

#[test]
fn apply_actions_detects_conflicting_assignments() {
    let state = State::from_entities(vec![(
        EntityName::from("A".to_string()),
        Entity::from_resources(vec![(ResourceName::from("Resource".to_string()), amount(0.))]),
    )]);
    let actions = vec![
        (
            ActionName::from("Action 1".to_string()),
            Action::from(
                ResourceName::from("Resource".to_string()),
                EntityName::from("A".to_string()),
                amount(1.),
            ),
        ),
        (
            ActionName::from("Action 2".to_string()),
            Action::from(
                ResourceName::from("Resource".to_string()),
                EntityName::from("A".to_string()),
                amount(2.),
            ),
        ),
    ];
    state.apply_actions(&actions).unwrap_err();
}

#[test]
fn possible_states_append_state() {
    let state = State::from_entities(vec![(
        EntityName::from("A".to_string()),
        Entity::from_resources(vec![
            (ResourceName::from("Resource".to_string()), amount(0.)),
            (ResourceName::from("Resource2".to_string()), amount(0.)),
        ]),
    )]);
    let state_hash = StateHash::from_state(&state);
    let mut possible_states = PossibleStates::new();
    possible_states
        .append_state(state_hash, state.clone())
        .unwrap();
    assert_eq!(possible_states.len(), 1);
    assert_eq!(possible_states.state(&state_hash), Some(&state));

    possible_states.append_state(state_hash, state.clone()).unwrap_err();
    assert_eq!(possible_states.len(), 1);
    assert_eq!(possible_states.state(&state_hash), Some(&state));
}

#[test]
fn reachable_states_append_state() {
    let mut reachable_states = ReachableStates::new();
    let state_hash = StateHash::new();
    let probability = Probability::one();
    reachable_states
        .append_state(state_hash, probability)
        .unwrap();
    assert_eq!(reachable_states.len(), 1);
    assert_eq!(reachable_states.probability(&state_hash), Some(probability));

    reachable_states
        .append_state(state_hash, probability)
        .unwrap_err();
    assert_eq!(reachable_states.len(), 1);
    assert_eq!(reachable_states.probability(&state_hash), Some(probability));
}

#[test]
fn reachable_states_probability_sum() {
    let mut reachable_states = ReachableStates::new();
    let state_hash = StateHash::new();
    let probability = Probability::new(200_000_000).unwrap();
    reachable_states
        .append_state(state_hash, probability)
        .unwrap();
    let state_hash = StateHash::from_state(&State::from_entities(vec![(
        EntityName::from("A".to_string()),
        Entity::from_resources(vec![(ResourceName::from("Resource".to_string()), amount(0.))]),
    )]));
    let probability = Probability::new(500_000_000).unwrap();
    reachable_states
        .append_state(state_hash, probability)
        .unwrap();
    assert_eq!(reachable_states.probability_sum(), 700_000_000u128);
}

#[test]
fn reachable_states_entropy() {
    let mut reachable_states = ReachableStates::new();
    assert_eq!(reachable_states.entropy(), Some(Entropy::from_parts(0)));
    let state_hash = StateHash::new();
    let probability = Probability::new(SCALE / 2).unwrap();
    reachable_states
        .append_state(state_hash, probability)
        .unwrap();
    let state_hash = StateHash::from_state(&State::from_entities(vec![(
        EntityName::from("A".to_string()),
        Entity::from_resources(vec![(ResourceName::from("Resource".to_string()), amount(0.))]),
    )]));
    let probability = Probability::new(SCALE / 2).unwrap();
    reachable_states
        .append_state(state_hash, probability)
        .unwrap();
    assert_eq!(reachable_states.entropy(), Some(Entropy::from_parts(SCALE)));
}

#[test]
fn entropy_is_inexact_for_non_dyadic_masses() {
    let mut reachable_states = ReachableStates::new();
    reachable_states
        .append_state(StateHash::new(), Probability::new(300_000_000).unwrap())
        .unwrap();
    assert_eq!(reachable_states.entropy(), None);
}

#[test]
fn state_hash_ignores_insertion_order() {
    let forward = State::from_entities(vec![
        (
            EntityName::from("A".to_string()),
            Entity::from_resources(vec![
                (ResourceName::from("x".to_string()), amount(1.)),
                (ResourceName::from("y".to_string()), amount(2.)),
            ]),
        ),
        (
            EntityName::from("B".to_string()),
            Entity::from_resources(vec![(ResourceName::from("z".to_string()), amount(3.))]),
        ),
    ]);
    let shuffled = State::from_entities(vec![
        (
            EntityName::from("B".to_string()),
            Entity::from_resources(vec![(ResourceName::from("z".to_string()), amount(3.))]),
        ),
        (
            EntityName::from("A".to_string()),
            Entity::from_resources(vec![
                (ResourceName::from("y".to_string()), amount(2.)),
                (ResourceName::from("x".to_string()), amount(1.)),
            ]),
        ),
    ]);
    assert_eq!(
        StateHash::from_state(&forward),
        StateHash::from_state(&shuffled)
    );
    assert_eq!(forward, shuffled);
}

#[test]
fn probability_rejects_mass_beyond_one() {
    Probability::new(SCALE).unwrap();
    Probability::new(SCALE + 1).unwrap_err();
}

#[test]
fn entropy_of_uniform_four_states_is_two_bits() {
    let mut reachable = ReachableStates::new();
    let quarter = Probability::new(SCALE / 4).unwrap();
    for i in 0..4u64 {
        let state = State::from_entities(vec![(
            EntityName::from(format!("E{i}")),
            Entity::from_resources(vec![(ResourceName::from("r".to_string()), Amount::new(i))]),
        )]);
        reachable
            .append_state(StateHash::from_state(&state), quarter)
            .unwrap();
    }
    assert_eq!(reachable.entropy(), Some(Entropy::from_parts(2 * SCALE)));
}

#[test]
fn possible_states_merge_is_append_only() {
    let state_a = State::from_entities(vec![(
        EntityName::from("A".to_string()),
        Entity::from_resources(vec![(ResourceName::from("r".to_string()), amount(0.))]),
    )]);
    let state_b = State::from_entities(vec![(
        EntityName::from("B".to_string()),
        Entity::from_resources(vec![(ResourceName::from("r".to_string()), amount(0.))]),
    )]);
    let ha = StateHash::from_state(&state_a);
    let hb = StateHash::from_state(&state_b);
    let mut pool = PossibleStates::new();
    pool.append_state(ha, state_a.clone()).unwrap();
    let mut other = PossibleStates::new();
    other.append_state(hb, state_b.clone()).unwrap();
    pool.append_states(&other).unwrap();
    assert_eq!(pool.len(), 2);
    assert!(pool.contains(&ha));
    assert!(pool.contains(&hb));
    pool.append_states(&other).unwrap_err();
}

#[test]
fn reachable_states_merge_accumulates_masses() {
    let h = StateHash::new();
    let mut a = ReachableStates::new();
    a.append_state(h, Probability::new(400_000_000).unwrap())
        .unwrap();
    let mut b = ReachableStates::new();
    b.append_state(h, Probability::new(500_000_000).unwrap())
        .unwrap();
    a.append_states(&b).unwrap();
    assert_eq!(
        a.probability(&h),
        Some(Probability::new(900_000_000).unwrap())
    );
    a.append_states(&b).unwrap_err();
}

#[test]
fn entropy_of_a_certain_distribution_is_zero() {
    let mut reachable = ReachableStates::new();
    reachable
        .append_state(StateHash::new(), Probability::one())
        .unwrap();
    assert_eq!(reachable.entropy(), Some(Entropy::from_parts(0)));
}
