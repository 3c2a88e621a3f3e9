//! Entities, states and the possible-state pool.
//!
//! A [`State`] is an unordered mapping from entity name to [`Entity`]; an
//! entity is an unordered mapping from resource name to [`Amount`]. Both
//! are stored as vectors of pairs with pairwise-distinct keys and are
//! abstracted as those pair sequences, so every contract below speaks the
//! vocabulary of `crate::alist`. A [`StateHash`] is the order-independent
//! fingerprint of a state, and [`PossibleStates`] is the append-only pool
//! of every state the engine has seen, addressed by fingerprint.

use vstd::prelude::*;

use crate::alist::{
    alist_contains,
    alist_distinct,
    alist_find,
    alist_from_pairs,
    alist_insert,
    find_index,
    lemma_distinct_insert,
    lemma_distinct_update,
    lemma_find_absent,
    lemma_find_at,
    lemma_find_contains,
    lemma_find_index,
};
use crate::errors::{AlreadyExistsError, ErrorKind, NotFoundError};
use crate::hashing::{entity_triples, hash_triple, state_hash_of, state_triples, triple_hash, xor_all};
use crate::hashing::{lemma_state_triples_push, lemma_xor_all_push};
use crate::units::Amount;

verus! {

/// The abstraction of an entity: its (resource name, amount) pairs.
pub type EntityView = Seq<(Seq<char>, u64)>;

/// The abstraction of a state: its (entity name, entity view) pairs.
pub type StateView = Seq<(Seq<char>, EntityView)>;

/// An entity view is well formed when its resource names are distinct.
pub open spec fn entity_view_wf(ev: EntityView) -> bool {
    alist_distinct(ev)
}

/// A state view is well formed when its entity names are distinct and
/// every entity view is well formed.
pub open spec fn state_view_wf(sv: StateView) -> bool {
    alist_distinct(sv) && forall|i: int|
        0 <= i < sv.len() ==> entity_view_wf((#[trigger] sv[i]).1)
}

/// The unique name of an entity.
#[derive(Debug)]
pub struct EntityName(pub String);

impl View for EntityName {
    type V = Seq<char>;

    open spec fn view(&self) -> Seq<char> {
        self.0@
    }
}

impl Clone for EntityName {
    fn clone(&self) -> (r: Self)
        ensures
            r@ == self@,
    {
        EntityName(self.0.clone())
    }
}

impl PartialEq for EntityName {
    fn eq(&self, other: &Self) -> (r: bool) {
        self.0 == other.0
    }
}

impl vstd::std_specs::cmp::PartialEqSpecImpl for EntityName {
    open spec fn obeys_eq_spec() -> bool {
        true
    }

    open spec fn eq_spec(&self, other: &Self) -> bool {
        self@ == other@
    }
}

impl From<String> for EntityName {
    fn from(s: String) -> (r: Self) {
        EntityName(s)
    }
}

impl vstd::std_specs::convert::FromSpecImpl<String> for EntityName {
    open spec fn obeys_from_spec() -> bool {
        true
    }

    open spec fn from_spec(s: String) -> Self {
        EntityName(s)
    }
}

impl EntityName {
    /// The empty entity name.
    pub fn new() -> (r: Self)
        ensures
            r@ == Seq::<char>::empty(),
    {
        EntityName(String::new())
    }
}

/// The unique name of a resource within an entity.
#[derive(Debug)]
pub struct ResourceName(pub String);

impl View for ResourceName {
    type V = Seq<char>;

    open spec fn view(&self) -> Seq<char> {
        self.0@
    }
}

impl Clone for ResourceName {
    fn clone(&self) -> (r: Self)
        ensures
            r@ == self@,
    {
        ResourceName(self.0.clone())
    }
}

impl PartialEq for ResourceName {
    fn eq(&self, other: &Self) -> (r: bool) {
        self.0 == other.0
    }
}

impl vstd::std_specs::cmp::PartialEqSpecImpl for ResourceName {
    open spec fn obeys_eq_spec() -> bool {
        true
    }

    open spec fn eq_spec(&self, other: &Self) -> bool {
        self@ == other@
    }
}

impl From<String> for ResourceName {
    fn from(s: String) -> (r: Self) {
        ResourceName(s)
    }
}

impl vstd::std_specs::convert::FromSpecImpl<String> for ResourceName {
    open spec fn obeys_from_spec() -> bool {
        true
    }

    open spec fn from_spec(s: String) -> Self {
        ResourceName(s)
    }
}

impl ResourceName {
    /// The empty resource name.
    pub fn new() -> (r: Self)
        ensures
            r@ == Seq::<char>::empty(),
    {
        ResourceName(String::new())
    }
}

/// The name of one assignment within a batch of actions.
#[derive(Debug)]
pub struct ActionName(pub String);

impl View for ActionName {
    type V = Seq<char>;

    open spec fn view(&self) -> Seq<char> {
        self.0@
    }
}

impl Clone for ActionName {
    fn clone(&self) -> (r: Self)
        ensures
            r@ == self@,
    {
        ActionName(self.0.clone())
    }
}

impl PartialEq for ActionName {
    fn eq(&self, other: &Self) -> (r: bool) {
        self.0 == other.0
    }
}

impl vstd::std_specs::cmp::PartialEqSpecImpl for ActionName {
    open spec fn obeys_eq_spec() -> bool {
        true
    }

    open spec fn eq_spec(&self, other: &Self) -> bool {
        self@ == other@
    }
}

impl From<String> for ActionName {
    fn from(s: String) -> (r: Self) {
        ActionName(s)
    }
}

impl vstd::std_specs::convert::FromSpecImpl<String> for ActionName {
    open spec fn obeys_from_spec() -> bool {
        true
    }

    open spec fn from_spec(s: String) -> Self {
        ActionName(s)
    }
}

/// A single entity: an unordered mapping from resource name to amount.
#[derive(Debug, PartialEq)]
pub struct Entity {
    resources: Vec<(ResourceName, Amount)>,
}

impl View for Entity {
    type V = EntityView;

    open spec fn view(&self) -> EntityView {
        self.rep()
    }
}

impl Clone for Entity {
    fn clone(&self) -> (r: Self)
        ensures
            r@ == self@,
    {
        clone_entity(self)
    }
}

#[verifier::loop_isolation(false)]
fn clone_entity(e: &Entity) -> (r: Entity)
    ensures
        r@ == e@,
{
    {
        let mut resources: Vec<(ResourceName, Amount)> = Vec::new();
        let mut i: usize = 0;
        while i < e.resources.len()
            invariant
                i <= e.resources@.len(),
                resources@.map_values(|p: (ResourceName, Amount)| (p.0@, p.1@)) =~= e@.take(
                    i as int,
                ),
            decreases e.resources@.len() - i,
        {
            let name = e.resources[i].0.clone();
            let amount = e.resources[i].1;
            resources.push((name, amount));
            proof {
                assert(resources@.map_values(|p: (ResourceName, Amount)| (p.0@, p.1@)) =~= e@
                    .take(i + 1));
            }
            i = i + 1;
        }
        proof {
            assert(e@.take(e@.len() as int) =~= e@);
        }
        Entity { resources }
    }
}

impl Entity {
    /// The stored pairs, abstracted; the body stays private to this
    /// module.
    pub closed spec fn rep(&self) -> EntityView {
        self.resources@.map_values(|p: (ResourceName, Amount)| (p.0@, p.1@))
    }

    /// Whether this entity's resource names are pairwise distinct.
    pub open spec fn wf(&self) -> bool {
        entity_view_wf(self@)
    }

    /// An entity holding no resources.
    pub fn new() -> (r: Self)
        ensures
            r@ == EntityView::empty(),
            r.wf(),
    {
        let r = Entity { resources: Vec::new() };
        proof {
            assert(r@ =~= EntityView::empty());
        }
        r
    }

    /// Builds an entity from (name, amount) pairs; a later pair replaces
    /// an earlier one carrying the same name.
    #[verifier::loop_isolation(false)]
    pub fn from_resources(resources: Vec<(ResourceName, Amount)>) -> (r: Self)
        ensures
            r@ == alist_from_pairs(
                resources@.map_values(|p: (ResourceName, Amount)| (p.0@, p.1@)),
            ),
            r.wf(),
    {
        let ghost ps = resources@.map_values(|p: (ResourceName, Amount)| (p.0@, p.1@));
        let mut r = Entity::new();
        let mut i: usize = 0;
        proof {
            assert(ps.take(0) =~= Seq::<(Seq<char>, u64)>::empty());
        }
        while i < resources.len()
            invariant
                i <= resources@.len(),
                ps == resources@.map_values(|p: (ResourceName, Amount)| (p.0@, p.1@)),
                r@ == alist_from_pairs(ps.take(i as int)),
                r.wf(),
            decreases resources@.len() - i,
        {
            let name = resources[i].0.clone();
            let amount = resources[i].1;
            proof {
                assert(ps.take(i + 1).drop_last() =~= ps.take(i as int));
                assert(ps.take(i + 1).last() == (name@, amount@));
            }
            r.put_resource(name, amount);
            i = i + 1;
        }
        proof {
            assert(ps.take(ps.len() as int) =~= ps);
        }
        r
    }

    /// Binds `name` to `amount`, replacing any existing binding or
    /// appending a fresh one.
    #[verifier::loop_isolation(false)]
    pub fn put_resource(&mut self, name: ResourceName, amount: Amount)
        requires
            old(self).wf(),
        ensures
            final(self)@ == alist_insert(old(self)@, name@, amount@),
            final(self).wf(),
    {
        proof {
            lemma_distinct_insert(self@, name@, amount@);
        }
        let ghost s = self@;
        let mut i: usize = 0;
        while i < self.resources.len()
            invariant
                i <= s.len(),
                s == self@,
                old(self) == self,
                forall|j: int| 0 <= j < i ==> (#[trigger] s[j]).0 != name@,
            decreases s.len() - i,
        {
            if self.resources[i].0 == name {
                proof {
                    assert(s[i as int].0 == name@);
                    assert(alist_contains(s, name@));
                    lemma_find_index(s, name@);
                    let fi = find_index(s, name@);
                    assert(!(fi < i) && !(i < fi));
                    assert(fi == i);
                }
                self.resources[i] = (name, amount);
                proof {
                    assert(self@ =~= s.update(i as int, (s[i as int].0, amount@)));
                    assert((s[i as int].0, amount@) == (name@, amount@));
                    assert(self@ == alist_insert(s, name@, amount@));
                }
                return ;
            }
            i = i + 1;
        }
        proof {
            assert(!alist_contains(s, name@));
        }
        self.resources.push((name, amount));
        proof {
            assert(self@ =~= s.push((name@, amount@)));
        }
    }

    /// Looks up the amount bound to `resource_name`, or reports what was
    /// missing and where.
    #[verifier::loop_isolation(false)]
    pub fn resource(&self, resource_name: &ResourceName) -> (r: Result<
        &Amount,
        NotFoundError<ResourceName, Entity>,
    >)
        ensures
            match r {
                Ok(a) => alist_find(self@, resource_name@) == Some(a@),
                Err(e) => alist_find(self@, resource_name@) == None::<u64> && e.key@
                    == resource_name@ && e.container@ == self@,
            },
    {
        let mut i: usize = 0;
        while i < self.resources.len()
            invariant
                i <= self@.len(),
                forall|j: int| 0 <= j < i ==> (#[trigger] self@[j]).0 != resource_name@,
            decreases self@.len() - i,
        {
            if self.resources[i].0 == *resource_name {
                proof {
                    assert(self@[i as int].0 == resource_name@);
                    lemma_find_at(self@, resource_name@, i as int);
                }
                return Ok(&self.resources[i].1);
            }
            i = i + 1;
        }
        proof {
            lemma_find_absent(self@, resource_name@);
        }
        Err(NotFoundError::new(resource_name.clone(), self.clone()))
    }

    /// Replaces the amount bound to `resource_name`; an absent resource is
    /// an error and leaves the entity unchanged.
    #[verifier::loop_isolation(false)]
    pub fn set_resource(&mut self, resource_name: &ResourceName, amount: Amount) -> (r: Result<
        (),
        NotFoundError<ResourceName, Entity>,
    >)
        requires
            old(self).wf(),
        ensures
            final(self).wf(),
            match r {
                Ok(u) => alist_contains(old(self)@, resource_name@) && final(self)@ == alist_insert(
                    old(self)@,
                    resource_name@,
                    amount@,
                ),
                Err(e) => !alist_contains(old(self)@, resource_name@) && final(self)@ == old(self)@
                    && e.key@ == resource_name@ && e.container@ == old(self)@,
            },
    {
        proof {
            lemma_distinct_insert(self@, resource_name@, amount@);
        }
        let ghost s = self@;
        let mut i: usize = 0;
        while i < self.resources.len()
            invariant
                i <= s.len(),
                s == self@,
                old(self) == self,
                forall|j: int| 0 <= j < i ==> (#[trigger] s[j]).0 != resource_name@,
            decreases s.len() - i,
        {
            if self.resources[i].0 == *resource_name {
                proof {
                    assert(s[i as int].0 == resource_name@);
                    assert(alist_contains(s, resource_name@));
                    lemma_find_index(s, resource_name@);
                    assert(find_index(s, resource_name@) == i);
                }
                let name = resource_name.clone();
                self.resources[i] = (name, amount);
                proof {
                    assert(self@ =~= s.update(i as int, (s[i as int].0, amount@)));
                    assert((s[i as int].0, amount@) == (resource_name@, amount@));
                    assert(self@ == alist_insert(s, resource_name@, amount@));
                }
                return Ok(());
            }
            i = i + 1;
        }
        proof {
            assert(!alist_contains(s, resource_name@));
        }
        Err(NotFoundError::new(resource_name.clone(), self.clone()))
    }

    /// Read-only access to the stored (name, amount) pairs.
    pub fn iter_resources(&self) -> (r: &Vec<(ResourceName, Amount)>)
        ensures
            r@.map_values(|p: (ResourceName, Amount)| (p.0@, p.1@)) == self@,
    {
        &self.resources
    }

    /// How many resources this entity holds.
    pub fn len(&self) -> (r: usize)
        ensures
            r == self@.len(),
    {
        self.resources.len()
    }
}

/// A possible state of the world: an unordered mapping from entity name
/// to [`Entity`]. Two states are `==` exactly when their fingerprints
/// agree. Equal unordered contents always fingerprint alike (see
/// `crate::hashing`), so equal states always compare equal; the converse
/// rests on the absence of 64-bit fingerprint collisions, which the
/// engine assumes throughout rather than guarantees, exactly as it
/// assumes it when it keys the pool and the cache by fingerprint.
#[derive(Debug)]
pub struct State {
    entities: Vec<(EntityName, Entity)>,
}

impl View for State {
    type V = StateView;

    open spec fn view(&self) -> StateView {
        self.rep()
    }
}

impl Clone for State {
    fn clone(&self) -> (r: Self)
        ensures
            r@ == self@,
    {
        clone_state(self)
    }
}

#[verifier::loop_isolation(false)]
fn clone_state(st: &State) -> (r: State)
    ensures
        r@ == st@,
{
    let mut entities: Vec<(EntityName, Entity)> = Vec::new();
    let mut i: usize = 0;
    while i < st.entities.len()
        invariant
            i <= st.entities@.len(),
            entities@.map_values(|p: (EntityName, Entity)| (p.0@, p.1@)) =~= st@.take(i as int),
        decreases st.entities@.len() - i,
    {
        let name = st.entities[i].0.clone();
        let entity = st.entities[i].1.clone();
        entities.push((name, entity));
        proof {
            assert(entities@.map_values(|p: (EntityName, Entity)| (p.0@, p.1@)) =~= st@.take(
                i + 1,
            ));
        }
        i = i + 1;
    }
    proof {
        assert(st@.take(st@.len() as int) =~= st@);
    }
    State { entities }
}

impl PartialEq for State {
    fn eq(&self, other: &Self) -> (r: bool) {
        let a = StateHash::from_state(self);
        let b = StateHash::from_state(other);
        a.0 == b.0
    }
}

impl vstd::std_specs::cmp::PartialEqSpecImpl for State {
    open spec fn obeys_eq_spec() -> bool {
        true
    }

    open spec fn eq_spec(&self, other: &Self) -> bool {
        state_hash_of(self@) == state_hash_of(other@)
    }
}

impl State {
    /// The stored pairs, abstracted; the body stays private to this
    /// module.
    pub closed spec fn rep(&self) -> StateView {
        self.entities@.map_values(|p: (EntityName, Entity)| (p.0@, p.1@))
    }

    /// Whether entity names are distinct and every entity is well formed.
    pub open spec fn wf(&self) -> bool {
        state_view_wf(self@)
    }

    /// A state holding no entities.
    pub fn new() -> (r: Self)
        ensures
            r@ == StateView::empty(),
            r.wf(),
    {
        let r = State { entities: Vec::new() };
        proof {
            assert(r@ =~= StateView::empty());
        }
        r
    }

    /// Builds a state from (name, entity) pairs; a later pair replaces an
    /// earlier one carrying the same name.
    #[verifier::loop_isolation(false)]
    pub fn from_entities(entities: Vec<(EntityName, Entity)>) -> (r: Self)
        requires
            forall|i: int|
                0 <= i < entities@.len() ==> entity_view_wf((#[trigger] entities@[i]).1@),
        ensures
            r@ == alist_from_pairs(entities@.map_values(|p: (EntityName, Entity)| (p.0@, p.1@))),
            r.wf(),
    {
        let ghost ps = entities@.map_values(|p: (EntityName, Entity)| (p.0@, p.1@));
        let mut r = State::new();
        let mut i: usize = 0;
        proof {
            assert(ps.take(0) =~= StateView::empty());
        }
        while i < entities.len()
            invariant
                i <= entities@.len(),
                forall|k: int|
                    0 <= k < entities@.len() ==> entity_view_wf((#[trigger] entities@[k]).1@),
                ps == entities@.map_values(|p: (EntityName, Entity)| (p.0@, p.1@)),
                r@ == alist_from_pairs(ps.take(i as int)),
                r.wf(),
            decreases entities@.len() - i,
        {
            let name = entities[i].0.clone();
            let entity = entities[i].1.clone();
            proof {
                assert(ps.take(i + 1).drop_last() =~= ps.take(i as int));
                assert(ps.take(i + 1).last() == (name@, entity@));
            }
            r.insert_entity(name, entity);
            i = i + 1;
        }
        proof {
            assert(ps.take(ps.len() as int) =~= ps);
        }
        r
    }

    /// Binds `name` to `entity` wholesale, replacing any existing entity
    /// of that name or appending a fresh one.
    #[verifier::loop_isolation(false)]
    pub fn insert_entity(&mut self, name: EntityName, entity: Entity)
        requires
            old(self).wf(),
            entity.wf(),
        ensures
            final(self)@ == alist_insert(old(self)@, name@, entity@),
            final(self).wf(),
    {
        proof {
            lemma_distinct_insert(self@, name@, entity@);
        }
        let ghost s = self@;
        let mut i: usize = 0;
        while i < self.entities.len()
            invariant
                i <= s.len(),
                s == self@,
                old(self) == self,
                forall|j: int| 0 <= j < i ==> (#[trigger] s[j]).0 != name@,
            decreases s.len() - i,
        {
            if self.entities[i].0 == name {
                proof {
                    assert(s[i as int].0 == name@);
                    assert(alist_contains(s, name@));
                    lemma_find_index(s, name@);
                    assert(find_index(s, name@) == i);
                }
                self.entities[i] = (name, entity);
                proof {
                    assert(self@ =~= s.update(i as int, (s[i as int].0, entity@)));
                    assert((s[i as int].0, entity@) == (name@, entity@));
                    assert(self@ == alist_insert(s, name@, entity@));
                    assert(forall|k: int|
                        0 <= k < self@.len() && k != i ==> (#[trigger] self@[k]) == s[k]);
                }
                return ;
            }
            i = i + 1;
        }
        proof {
            assert(!alist_contains(s, name@));
        }
        self.entities.push((name, entity));
        proof {
            assert(self@ =~= s.push((name@, entity@)));
        }
    }

    /// Looks up the entity named `entity_name`, or reports what was
    /// missing and where.
    #[verifier::loop_isolation(false)]
    pub fn entity(&self, entity_name: &EntityName) -> (r: Result<
        &Entity,
        NotFoundError<EntityName, State>,
    >)
        ensures
            match r {
                Ok(e) => alist_find(self@, entity_name@) == Some(e@),
                Err(e) => alist_find(self@, entity_name@) == None::<EntityView> && e.key@
                    == entity_name@ && e.container@ == self@,
            },
    {
        let mut i: usize = 0;
        while i < self.entities.len()
            invariant
                i <= self@.len(),
                forall|j: int| 0 <= j < i ==> (#[trigger] self@[j]).0 != entity_name@,
            decreases self@.len() - i,
        {
            if self.entities[i].0 == *entity_name {
                proof {
                    assert(self@[i as int].0 == entity_name@);
                    lemma_find_at(self@, entity_name@, i as int);
                }
                return Ok(&self.entities[i].1);
            }
            i = i + 1;
        }
        proof {
            lemma_find_absent(self@, entity_name@);
        }
        Err(NotFoundError::new(entity_name.clone(), self.clone()))
    }

    /// Replaces one parameter of one entity: the amount bound to
    /// `resource_name` inside the entity named `target`. A missing entity
    /// or a missing resource is reported by name, and either error leaves
    /// the state unchanged.
    #[verifier::loop_isolation(false)]
    pub fn set_parameter(&mut self, target: &EntityName, resource_name: &ResourceName, amount: Amount) -> (r:
        Result<(), ErrorKind>)
        requires
            old(self).wf(),
        ensures
            final(self).wf(),
            match r {
                Ok(u) => {
                    &&& alist_find(old(self)@, target@) matches Some(ev)
                        && alist_contains(ev, resource_name@)
                    &&& final(self)@ == alist_insert(
                        old(self)@,
                        target@,
                        alist_insert(alist_find(old(self)@, target@).unwrap(), resource_name@, amount@),
                    )
                },
                Err(e) => final(self)@ == old(self)@ && match e {
                    ErrorKind::EntityNotFound(nf) => !alist_contains(old(self)@, target@)
                        && nf.key@ == target@ && nf.container@ == old(self)@,
                    ErrorKind::ResourceNotFound(nf) => (alist_find(old(self)@, target@) matches
                    Some(ev) && !alist_contains(ev, resource_name@)) && nf.key@ == resource_name@
                        && nf.container@ == alist_find(old(self)@, target@).unwrap(),
                    _ => false,
                },
            },
    {
        let ghost s = self@;
        let mut i: usize = 0;
        let n = self.entities.len();
        while i < n
            invariant
                i <= s.len(),
                n == s.len(),
                s == self@,
                old(self) == self,
                forall|j: int| 0 <= j < i ==> (#[trigger] s[j]).0 != target@,
            decreases s.len() - i,
        {
            if self.entities[i].0 == *target {
                proof {
                    assert(s[i as int].0 == target@);
                    assert(alist_contains(s, target@));
                    lemma_find_index(s, target@);
                    assert(find_index(s, target@) == i);
                    assert(alist_find(s, target@) == Some(s[i as int].1));
                }
                let ent = &mut self.entities[i].1;
                let res = ent.set_resource(resource_name, amount);
                proof {
                    assert(self@ =~= s.update(i as int, (s[i as int].0, self@[i as int].1)));
                }
                match res {
                    Ok(u) => {
                        proof {
                            lemma_distinct_insert(s[i as int].1, resource_name@, amount@);
                            assert(self@ == alist_insert(
                                s,
                                target@,
                                alist_insert(s[i as int].1, resource_name@, amount@),
                            ));
                        }
                        return Ok(());
                    },
                    Err(e) => {
                        proof {
                            assert(self@ =~= s);
                        }
                        return Err(ErrorKind::ResourceNotFound(e));
                    },
                }
            }
            i = i + 1;
        }
        proof {
            lemma_find_absent(s, target@);
            assert(!alist_contains(s, target@)) by {
                lemma_find_contains(s, target@);
            }
        }
        Err(ErrorKind::EntityNotFound(NotFoundError::new(target.clone(), self.clone())))
    }

    /// Read-only access to the stored (name, entity) pairs.
    pub fn iter_entities(&self) -> (r: &Vec<(EntityName, Entity)>)
        ensures
            r@.map_values(|p: (EntityName, Entity)| (p.0@, p.1@)) == self@,
    {
        &self.entities
    }

    /// How many entities this state holds.
    pub fn len(&self) -> (r: usize)
        ensures
            r == self@.len(),
    {
        self.entities.len()
    }
}

/// The 64-bit order-independent fingerprint of a [`State`].
#[derive(Clone, Copy, PartialEq, Eq, Structural, Debug, Hash)]
pub struct StateHash(pub u64);

impl View for StateHash {
    type V = u64;

    open spec fn view(&self) -> u64 {
        self.0
    }
}

impl StateHash {
    /// The fingerprint of the empty state.
    pub fn new() -> (r: Self)
        ensures
            r@ == state_hash_of(StateView::empty()),
            r@ == 0,
    {
        proof {
            assert(state_triples(StateView::empty()) == Seq::<u64>::empty());
        }
        StateHash(0)
    }

    /// Computes the fingerprint of `state`: the XOR over all its
    /// (entity name, resource name, amount) triple hashes.
    #[verifier::loop_isolation(false)]
    pub fn from_state(state: &State) -> (r: Self)
        ensures
            r@ == state_hash_of(state@),
    {
        let ghost sv = state@;
        let mut acc: u64 = 0;
        let mut i: usize = 0;
        proof {
            assert(sv.take(0) =~= StateView::empty());
            assert(state_triples(StateView::empty()) == Seq::<u64>::empty());
        }
        while i < state.entities.len()
            invariant
                i <= sv.len(),
                sv == state@,
                acc == xor_all(state_triples(sv.take(i as int))),
            decreases sv.len() - i,
        {
            let ghost prefix = state_triples(sv.take(i as int));
            let ghost ev = sv[i as int].1;
            let ghost en = sv[i as int].0;
            let entity = &state.entities[i].1;
            let entity_name = &state.entities[i].0;
            let mut j: usize = 0;
            proof {
                assert(entity_triples(en, ev.take(0)) =~= Seq::<u64>::empty());
                assert(prefix + entity_triples(en, ev.take(0)) =~= prefix);
            }
            while j < entity.resources.len()
                invariant
                    j <= ev.len(),
                    sv == state@,
                    i < sv.len(),
                    entity@ == ev,
                    entity_name@ == en,
                    prefix == state_triples(sv.take(i as int)),
                    acc == xor_all(prefix + entity_triples(en, ev.take(j as int))),
                decreases ev.len() - j,
            {
                let t = hash_triple(
                    entity_name.0.as_str(),
                    entity.resources[j].0.0.as_str(),
                    entity.resources[j].1.bits(),
                );
                proof {
                    assert(entity_triples(en, ev.take(j + 1)) =~= entity_triples(
                        en,
                        ev.take(j as int),
                    ).push(triple_hash(en, ev[j as int].0, ev[j as int].1)));
                    assert(prefix + entity_triples(en, ev.take(j + 1)) =~= (prefix
                        + entity_triples(en, ev.take(j as int))).push(t));
                    lemma_xor_all_push(prefix + entity_triples(en, ev.take(j as int)), t);
                }
                acc = acc ^ t;
                j = j + 1;
            }
            proof {
                assert(ev.take(ev.len() as int) =~= ev);
                assert(sv.take(i + 1) =~= sv.take(i as int).push(sv[i as int]));
                lemma_state_triples_push(sv.take(i as int), sv[i as int]);
            }
            i = i + 1;
        }
        proof {
            assert(sv.take(sv.len() as int) =~= sv);
        }
        StateHash(acc)
    }
}

/// The append-only pool of every state seen in a run, addressed by
/// fingerprint. A (hash, state) pair, once inserted, is never modified or
/// removed.
#[derive(Debug, PartialEq)]
pub struct PossibleStates {
    states: Vec<(StateHash, State)>,
}

/// The abstraction of the pool: its (fingerprint, state view) pairs.
pub type PoolView = Seq<(u64, StateView)>;

/// Whether `b` holds every pool pair `a` holds.
pub open spec fn pool_extends(a: PoolView, b: PoolView) -> bool {
    forall|q: u64| #[trigger] alist_find(b, q) == alist_find(a, q) || alist_find(a, q)
        == None::<StateView>
}

impl Clone for PossibleStates {
    fn clone(&self) -> (r: Self)
        ensures
            r@ == self@,
    {
        clone_pool(self)
    }
}

#[verifier::loop_isolation(false)]
fn clone_pool(p: &PossibleStates) -> (r: PossibleStates)
    ensures
        r@ == p@,
{
    let mut states: Vec<(StateHash, State)> = Vec::new();
    let mut i: usize = 0;
    while i < p.states.len()
        invariant
            i <= p.states@.len(),
            states@.map_values(|q: (StateHash, State)| (q.0@, q.1@)) =~= p@.take(i as int),
        decreases p.states@.len() - i,
    {
        let h = p.states[i].0;
        let st = p.states[i].1.clone();
        states.push((h, st));
        proof {
            assert(states@.map_values(|q: (StateHash, State)| (q.0@, q.1@)) =~= p@.take(i + 1));
        }
        i = i + 1;
    }
    proof {
        assert(p@.take(p@.len() as int) =~= p@);
    }
    PossibleStates { states }
}

impl View for PossibleStates {
    type V = PoolView;

    open spec fn view(&self) -> PoolView {
        self.rep()
    }
}

impl PossibleStates {
    /// The stored pairs, abstracted; the body stays private to this
    /// module.
    pub closed spec fn rep(&self) -> PoolView {
        self.states@.map_values(|p: (StateHash, State)| (p.0@, p.1@))
    }

    /// Whether fingerprints are distinct and every stored state is well
    /// formed.
    pub open spec fn wf(&self) -> bool {
        alist_distinct(self@) && forall|i: int|
            0 <= i < self@.len() ==> state_view_wf((#[trigger] self@[i]).1)
    }

    /// An empty pool.
    pub fn new() -> (r: Self)
        ensures
            r@ == PoolView::empty(),
            r.wf(),
    {
        let r = PossibleStates { states: Vec::new() };
        proof {
            assert(r@ =~= PoolView::empty());
        }
        r
    }

    /// Inserts a (fingerprint, state) pair. A pair under a fingerprint
    /// already present is refused, whatever its state, and the pool is
    /// left unchanged; the caller may ignore the error when re-inserting
    /// the identical state.
    #[verifier::loop_isolation(false)]
    pub fn append_state(&mut self, state_hash: StateHash, state: State) -> (r: Result<
        (),
        AlreadyExistsError<StateHash, State>,
    >)
        requires
            old(self).wf(),
            state.wf(),
        ensures
            final(self).wf(),
            match r {
                Ok(u) => !alist_contains(old(self)@, state_hash@) && final(self)@ == old(
                    self,
                )@.push((state_hash@, state@)),
                Err(e) => alist_contains(old(self)@, state_hash@) && final(self)@ == old(self)@
                    && e.key@ == state_hash@ && e.value@ == state@,
            },
    {
        let ghost s = self@;
        let mut i: usize = 0;
        while i < self.states.len()
            invariant
                i <= s.len(),
                s == self@,
                old(self) == self,
                forall|j: int| 0 <= j < i ==> (#[trigger] s[j]).0 != state_hash@,
            decreases s.len() - i,
        {
            if self.states[i].0 == state_hash {
                proof {
                    assert(s[i as int].0 == state_hash@);
                    assert(alist_contains(s, state_hash@));
                }
                return Err(AlreadyExistsError::new(state_hash, state));
            }
            i = i + 1;
        }
        proof {
            assert(!alist_contains(s, state_hash@));
            lemma_distinct_insert(s, state_hash@, state@);
        }
        self.states.push((state_hash, state));
        proof {
            assert(self@ =~= s.push((state_hash@, state@)));
        }
        Ok(())
    }

    /// Inserts every pair of `states`; stops at the first fingerprint
    /// already present. On success the pool holds its old pairs followed
    /// by all of `states`; on failure it holds its old pairs and some
    /// prefix of `states`.
    #[verifier::loop_isolation(false)]
    pub fn append_states(&mut self, states: &PossibleStates) -> (r: Result<
        (),
        AlreadyExistsError<StateHash, State>,
    >)
        requires
            old(self).wf(),
            states.wf(),
        ensures
            final(self).wf(),
            match r {
                Ok(u) => (forall|k: u64|
                    alist_contains(states@, k) ==> !alist_contains(old(self)@, k)) && final(self)@
                    == old(self)@ + states@,
                Err(e) => alist_contains(old(self)@, e.key@) && alist_contains(states@, e.key@) && (
                exists|n: int|
                    0 <= n <= states@.len() && final(self)@ == old(self)@ + states@.take(n)),
            },
    {
        let ghost dst = self@;
        let ghost src = states@;
        let mut i: usize = 0;
        proof {
            assert(dst + src.take(0) =~= dst);
        }
        while i < states.states.len()
            invariant
                i <= src.len(),
                src == states@,
                states.wf(),
                old(self).wf(),
                dst == old(self)@,
                self@ == dst + src.take(i as int),
                self.wf(),
                forall|j: int| 0 <= j < i ==> !alist_contains(dst, (#[trigger] src[j]).0),
            decreases src.len() - i,
        {
            let h = states.states[i].0;
            let st = states.states[i].1.clone();
            assert(st.wf()) by {
                assert(states@[i as int].1 == st@);
            }
            let res = self.append_state(h, st);
            match res {
                Ok(u) => {
                    proof {
                        assert(src.take(i + 1) =~= src.take(i as int).push(src[i as int]));
                        assert((dst + src.take(i as int)).push(src[i as int]) =~= dst + src.take(
                            i + 1,
                        ));
                        assert forall|j: int| 0 <= j < i + 1 implies !alist_contains(
                            dst,
                            (#[trigger] src[j]).0,
                        ) by {
                            if j == i && alist_contains(dst, src[j].0) {
                                let w = choose|w: int|
                                    0 <= w < dst.len() && (#[trigger] dst[w]).0 == src[j].0;
                                assert((dst + src.take(i as int))[w] == dst[w]);
                                assert(alist_contains(dst + src.take(i as int), src[j].0));
                            }
                        }
                    }
                },
                Err(e) => {
                    proof {
                        assert(alist_contains(dst + src.take(i as int), h@));
                        let w = choose|w: int|
                            0 <= w < (dst + src.take(i as int)).len() && (#[trigger] (dst
                                + src.take(i as int))[w]).0 == h@;
                        if w >= dst.len() {
                            assert(src[w - dst.len()].0 == h@);
                            assert(src[i as int].0 == h@);
                            assert(alist_distinct(src));
                            assert(false);
                        }
                        assert(alist_contains(dst, h@));
                        assert(alist_contains(src, h@)) by {
                            assert(src[i as int].0 == h@);
                        }
                    }
                    return Err(e);
                },
            }
            i = i + 1;
        }
        proof {
            assert(src.take(src.len() as int) =~= src);
            assert forall|k: u64| alist_contains(src, k) implies !alist_contains(dst, k) by {
                let w = choose|w: int| 0 <= w < src.len() && (#[trigger] src[w]).0 == k;
            }
        }
        Ok(())
    }

    /// The state stored under `state_hash`, if any.
    #[verifier::loop_isolation(false)]
    pub fn state(&self, state_hash: &StateHash) -> (r: Option<&State>)
        ensures
            match r {
                Some(st) => alist_find(self@, state_hash@) == Some(st@),
                None => alist_find(self@, state_hash@) == None::<StateView>,
            },
    {
        let mut i: usize = 0;
        while i < self.states.len()
            invariant
                i <= self@.len(),
                forall|j: int| 0 <= j < i ==> (#[trigger] self@[j]).0 != state_hash@,
            decreases self@.len() - i,
        {
            if self.states[i].0 == *state_hash {
                proof {
                    assert(self@[i as int].0 == state_hash@);
                    lemma_find_at(self@, state_hash@, i as int);
                }
                return Some(&self.states[i].1);
            }
            i = i + 1;
        }
        proof {
            lemma_find_absent(self@, state_hash@);
        }
        None
    }

    /// Read-only access to the stored (fingerprint, state) pairs.
    pub fn iter(&self) -> (r: &Vec<(StateHash, State)>)
        ensures
            r@.map_values(|p: (StateHash, State)| (p.0@, p.1@)) == self@,
    {
        &self.states
    }

    /// The stored states, in storage order.
    #[verifier::loop_isolation(false)]
    pub fn values(&self) -> (r: Vec<&State>)
        ensures
            r@.len() == self@.len(),
            forall|i: int| 0 <= i < r@.len() ==> (#[trigger] r@[i])@ == self@[i].1,
    {
        let mut out: Vec<&State> = Vec::new();
        let mut i: usize = 0;
        while i < self.states.len()
            invariant
                i <= self@.len(),
                out@.len() == i,
                forall|j: int| 0 <= j < i ==> (#[trigger] out@[j])@ == self@[j].1,
            decreases self@.len() - i,
        {
            out.push(&self.states[i].1);
            i = i + 1;
        }
        out
    }

    /// The position of `state_hash` in the pool, if present.
    #[verifier::loop_isolation(false)]
    pub fn index_of(&self, state_hash: &StateHash) -> (r: Option<usize>)
        ensures
            match r {
                Some(i) => i < self@.len() && self@[i as int].0 == state_hash@,
                None => !alist_contains(self@, state_hash@),
            },
    {
        let mut i: usize = 0;
        while i < self.states.len()
            invariant
                i <= self@.len(),
                forall|j: int| 0 <= j < i ==> (#[trigger] self@[j]).0 != state_hash@,
            decreases self@.len() - i,
        {
            if self.states[i].0 == *state_hash {
                proof {
                    assert(self@[i as int].0 == state_hash@);
                }
                return Some(i);
            }
            i = i + 1;
        }
        None
    }

    /// How many states the pool holds.
    pub fn len(&self) -> (r: usize)
        ensures
            r == self@.len(),
    {
        self.states.len()
    }

    /// Whether the pool holds no state at all.
    pub fn is_empty(&self) -> (r: bool)
        ensures
            r == (self@.len() == 0),
    {
        self.states.len() == 0
    }

    /// Whether the pool holds a state under `state_hash`.
    #[verifier::loop_isolation(false)]
    pub fn contains(&self, state_hash: &StateHash) -> (r: bool)
        ensures
            r == alist_contains(self@, state_hash@),
    {
        let mut i: usize = 0;
        while i < self.states.len()
            invariant
                i <= self@.len(),
                forall|j: int| 0 <= j < i ==> (#[trigger] self@[j]).0 != state_hash@,
            decreases self@.len() - i,
        {
            if self.states[i].0 == *state_hash {
                proof {
                    assert(self@[i as int].0 == state_hash@);
                }
                return true;
            }
            i = i + 1;
        }
        false
    }
}

} // verus!
