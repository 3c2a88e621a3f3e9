//! The rule evaluation cache.
//!
//! Per rule, the cache memoizes whether the rule's condition fires at a
//! base state and which successor its action produces, both keyed by the
//! base state's fingerprint. Every entry is write-once: rewriting an equal
//! value is a silent success, rewriting a different value is an error and
//! changes nothing. [`lemma_cache_write_once`] states that law once and
//! for all over [`alist_write_once`], the transition both kinds of entry
//! follow.

use vstd::prelude::*;

use crate::alist::{
    alist_contains,
    alist_distinct,
    alist_find,
    alist_insert,
    alist_write_once,
    find_index,
    lemma_distinct_insert,
    lemma_distinct_push,
    lemma_find_absent,
    lemma_find_at,
    lemma_find_contains,
    lemma_find_index,
    lemma_find_insert,
    lemma_find_push,
    lemma_write_once_distinct,
    lemma_write_once_find,
};
use crate::rules::{RuleApplies, RuleName};
use crate::state::StateHash;

verus! {

/// An error surfaced by the cache: a missing rule or entry on a mandatory
/// lookup, or a refused rewrite of a write-once entry.
#[derive(Clone, Debug, PartialEq)]
pub enum CacheError {
    RuleNotFound { rule_name: RuleName },
    ConditionNotFound { base_state_hash: StateHash },
    ActionNotFound { base_state_hash: StateHash },
    ConditionAlreadyExists { base_state_hash: StateHash, applies: RuleApplies },
    ActionAlreadyExists { base_state_hash: StateHash, new_state_hash: StateHash },
}

/// The memo of one rule: its condition entries and its action entries.
#[derive(Debug, PartialEq)]
pub struct RuleCache {
    condition: Vec<(StateHash, RuleApplies)>,
    actions: Vec<(StateHash, StateHash)>,
}

/// The abstraction of one rule's memo: (condition entries, action entries).
pub type RuleCacheView = (Seq<(u64, bool)>, Seq<(u64, u64)>);

/// A rule memo view is well formed when both key columns are distinct.
pub open spec fn rule_cache_view_wf(rcv: RuleCacheView) -> bool {
    alist_distinct(rcv.0) && alist_distinct(rcv.1)
}

impl View for RuleCache {
    type V = RuleCacheView;

    open spec fn view(&self) -> RuleCacheView {
        self.rep()
    }
}

impl Clone for RuleCache {
    fn clone(&self) -> (r: Self)
        ensures
            r@ == self@,
    {
        clone_rule_cache(self)
    }
}

#[verifier::loop_isolation(false)]
fn clone_rule_cache(rc: &RuleCache) -> (r: RuleCache)
    ensures
        r@ == rc@,
{
    let mut condition: Vec<(StateHash, RuleApplies)> = Vec::new();
    let mut i: usize = 0;
    while i < rc.condition.len()
        invariant
            i <= rc.condition@.len(),
            condition@ =~= rc.condition@.take(i as int),
        decreases rc.condition@.len() - i,
    {
        condition.push(rc.condition[i]);
        proof {
            assert(condition@ =~= rc.condition@.take(i + 1));
        }
        i = i + 1;
    }
    let mut actions: Vec<(StateHash, StateHash)> = Vec::new();
    let mut j: usize = 0;
    while j < rc.actions.len()
        invariant
            j <= rc.actions@.len(),
            actions@ =~= rc.actions@.take(j as int),
        decreases rc.actions@.len() - j,
    {
        actions.push(rc.actions[j]);
        proof {
            assert(actions@ =~= rc.actions@.take(j + 1));
        }
        j = j + 1;
    }
    proof {
        assert(rc.condition@.take(rc.condition@.len() as int) =~= rc.condition@);
        assert(rc.actions@.take(rc.actions@.len() as int) =~= rc.actions@);
    }
    RuleCache { condition, actions }
}

impl RuleCache {
    /// The stored entries, abstracted; the body stays private to this
    /// module.
    pub closed spec fn rep(&self) -> RuleCacheView {
        (
            self.condition@.map_values(|p: (StateHash, RuleApplies)| (p.0@, p.1@)),
            self.actions@.map_values(|p: (StateHash, StateHash)| (p.0@, p.1@)),
        )
    }

    /// Whether both key columns are distinct.
    pub open spec fn wf(&self) -> bool {
        rule_cache_view_wf(self@)
    }

    /// An empty memo.
    pub fn new() -> (r: Self)
        ensures
            r@ == (Seq::<(u64, bool)>::empty(), Seq::<(u64, u64)>::empty()),
            r.wf(),
    {
        let r = RuleCache { condition: Vec::new(), actions: Vec::new() };
        proof {
            assert(r@.0 =~= Seq::<(u64, bool)>::empty());
            assert(r@.1 =~= Seq::<(u64, u64)>::empty());
        }
        r
    }

    /// The memoized condition outcome at `base_state_hash`, or a not-found
    /// error.
    #[verifier::loop_isolation(false)]
    pub fn condition(&self, base_state_hash: &StateHash) -> (r: Result<&RuleApplies, CacheError>)
        ensures
            match r {
                Ok(v) => alist_find(self@.0, base_state_hash@) == Some(v@),
                Err(e) => alist_find(self@.0, base_state_hash@) == None::<bool> && e
                    == (CacheError::ConditionNotFound { base_state_hash: *base_state_hash }),
            },
    {
        let mut i: usize = 0;
        while i < self.condition.len()
            invariant
                i <= self@.0.len(),
                forall|j: int| 0 <= j < i ==> (#[trigger] self@.0[j]).0 != base_state_hash@,
            decreases self@.0.len() - i,
        {
            if self.condition[i].0 == *base_state_hash {
                proof {
                    assert(self@.0[i as int].0 == base_state_hash@);
                    lemma_find_at(self@.0, base_state_hash@, i as int);
                }
                return Ok(&self.condition[i].1);
            }
            i = i + 1;
        }
        proof {
            lemma_find_absent(self@.0, base_state_hash@);
        }
        Err(CacheError::ConditionNotFound { base_state_hash: *base_state_hash })
    }

    /// The memoized successor fingerprint at `base_state_hash`, or a
    /// not-found error.
    #[verifier::loop_isolation(false)]
    pub fn action(&self, base_state_hash: &StateHash) -> (r: Result<&StateHash, CacheError>)
        ensures
            match r {
                Ok(v) => alist_find(self@.1, base_state_hash@) == Some(v@),
                Err(e) => alist_find(self@.1, base_state_hash@) == None::<u64> && e
                    == (CacheError::ActionNotFound { base_state_hash: *base_state_hash }),
            },
    {
        let mut i: usize = 0;
        while i < self.actions.len()
            invariant
                i <= self@.1.len(),
                forall|j: int| 0 <= j < i ==> (#[trigger] self@.1[j]).0 != base_state_hash@,
            decreases self@.1.len() - i,
        {
            if self.actions[i].0 == *base_state_hash {
                proof {
                    assert(self@.1[i as int].0 == base_state_hash@);
                    lemma_find_at(self@.1, base_state_hash@, i as int);
                }
                return Ok(&self.actions[i].1);
            }
            i = i + 1;
        }
        proof {
            lemma_find_absent(self@.1, base_state_hash@);
        }
        Err(CacheError::ActionNotFound { base_state_hash: *base_state_hash })
    }

    /// Writes a condition entry once: a fresh fingerprint is recorded, an
    /// agreeing rewrite is a silent success, and a differing rewrite is
    /// refused and changes nothing.
    #[verifier::loop_isolation(false)]
    pub fn add_condition(&mut self, base_state_hash: StateHash, applies: RuleApplies) -> (r: Result<
        (),
        CacheError,
    >)
        requires
            old(self).wf(),
        ensures
            final(self).wf(),
            final(self)@.1 == old(self)@.1,
            match r {
                Ok(u) => alist_write_once(old(self)@.0, base_state_hash@, applies@) == Ok::<
                    Seq<(u64, bool)>,
                    bool,
                >(final(self)@.0),
                Err(e) => alist_write_once(old(self)@.0, base_state_hash@, applies@) == Err::<
                    Seq<(u64, bool)>,
                    bool,
                >(!applies@) && final(self)@ == old(self)@ && e == (
                CacheError::ConditionAlreadyExists { base_state_hash, applies }),
            },
    {
        let ghost s = self@.0;
        let mut i: usize = 0;
        while i < self.condition.len()
            invariant
                i <= s.len(),
                s == self@.0,
                old(self) == self,
                forall|j: int| 0 <= j < i ==> (#[trigger] s[j]).0 != base_state_hash@,
            decreases s.len() - i,
        {
            if self.condition[i].0 == base_state_hash {
                proof {
                    assert(s[i as int].0 == base_state_hash@);
                    lemma_find_at(s, base_state_hash@, i as int);
                }
                if self.condition[i].1 == applies {
                    return Ok(());
                } else {
                    proof {
                        assert(s[i as int].1 == !applies@);
                    }
                    return Err(CacheError::ConditionAlreadyExists { base_state_hash, applies });
                }
            }
            i = i + 1;
        }
        proof {
            lemma_find_absent(s, base_state_hash@);
            assert(!alist_contains(s, base_state_hash@)) by {
                lemma_find_contains(s, base_state_hash@);
            }
            lemma_distinct_insert(s, base_state_hash@, applies@);
        }
        self.condition.push((base_state_hash, applies));
        proof {
            assert(self@.0 =~= s.push((base_state_hash@, applies@)));
            assert(self@.1 == old(self)@.1);
        }
        Ok(())
    }

    /// Writes an action entry once, with the same write-once law as
    /// [`RuleCache::add_condition`].
    #[verifier::loop_isolation(false)]
    pub fn add_action(&mut self, base_state_hash: StateHash, new_state_hash: StateHash) -> (r:
        Result<(), CacheError>)
        requires
            old(self).wf(),
        ensures
            final(self).wf(),
            final(self)@.0 == old(self)@.0,
            match r {
                Ok(u) => alist_write_once(old(self)@.1, base_state_hash@, new_state_hash@) == Ok::<
                    Seq<(u64, u64)>,
                    u64,
                >(final(self)@.1),
                Err(e) => (alist_write_once(old(self)@.1, base_state_hash@, new_state_hash@)
                    matches Err(w) && final(self)@ == old(self)@ && e
                    == (CacheError::ActionAlreadyExists {
                    base_state_hash,
                    new_state_hash,
                }) && w != new_state_hash@),
            },
    {
        let ghost s = self@.1;
        let mut i: usize = 0;
        while i < self.actions.len()
            invariant
                i <= s.len(),
                s == self@.1,
                old(self) == self,
                forall|j: int| 0 <= j < i ==> (#[trigger] s[j]).0 != base_state_hash@,
            decreases s.len() - i,
        {
            if self.actions[i].0 == base_state_hash {
                proof {
                    assert(s[i as int].0 == base_state_hash@);
                    lemma_find_at(s, base_state_hash@, i as int);
                }
                if self.actions[i].1 == new_state_hash {
                    return Ok(());
                } else {
                    return Err(CacheError::ActionAlreadyExists { base_state_hash, new_state_hash });
                }
            }
            i = i + 1;
        }
        proof {
            lemma_find_absent(s, base_state_hash@);
            assert(!alist_contains(s, base_state_hash@)) by {
                lemma_find_contains(s, base_state_hash@);
            }
            lemma_distinct_insert(s, base_state_hash@, new_state_hash@);
        }
        self.actions.push((base_state_hash, new_state_hash));
        proof {
            assert(self@.1 =~= s.push((base_state_hash@, new_state_hash@)));
            assert(self@.0 == old(self)@.0);
        }
        Ok(())
    }
}

/// Cache write-once, stated once over the transition both entry kinds
/// follow: after a value is written under a key, writing the same value
/// again succeeds and changes nothing, and writing a different value is
/// refused with the stored value.
pub proof fn lemma_cache_write_once<K, V>(s: Seq<(K, V)>, k: K, v: V, v2: V)
    requires
        alist_write_once(s, k, v) matches Ok(t),
    ensures
        alist_write_once(s, k, v) matches Ok(t) ==> {
            &&& alist_write_once(t, k, v) == Ok::<Seq<(K, V)>, V>(t)
            &&& v2 != v ==> alist_write_once(t, k, v2) == Err::<Seq<(K, V)>, V>(v)
        },
{
    let t = match alist_write_once(s, k, v) {
        Ok(t) => t,
        Err(w) => s,
    };
    lemma_write_once_find(s, k, v, k);
    assert(alist_find(t, k) == Some(v));
}

/// The whole evaluation cache: one [`RuleCache`] per rule name.
#[derive(Debug, PartialEq)]
pub struct Cache {
    rules: Vec<(RuleName, RuleCache)>,
}

/// The abstraction of the cache: its (rule name, rule memo) pairs.
pub type CacheView = Seq<(Seq<char>, RuleCacheView)>;

/// The memoized condition outcome of `rule_name` at `base_hash`, if any.
pub open spec fn cache_condition(cv: CacheView, rule_name: Seq<char>, base_hash: u64) -> Option<
    bool,
> {
    match alist_find(cv, rule_name) {
        Some(rc) => alist_find(rc.0, base_hash),
        None => None,
    }
}

/// The memoized successor of `rule_name` at `base_hash`, if any.
pub open spec fn cache_action(cv: CacheView, rule_name: Seq<char>, base_hash: u64) -> Option<u64> {
    match alist_find(cv, rule_name) {
        Some(rc) => alist_find(rc.1, base_hash),
        None => None,
    }
}

/// Whether `b` holds every cache entry `a` holds, with the same value.
pub open spec fn cache_extends(a: CacheView, b: CacheView) -> bool {
    (forall|rn: Seq<char>, h: u64| #[trigger] cache_condition(b, rn, h) == cache_condition(a, rn, h)
        || cache_condition(a, rn, h) == None::<bool>) && (forall|rn: Seq<char>, h: u64|
        #[trigger] cache_action(b, rn, h) == cache_action(a, rn, h) || cache_action(a, rn, h)
            == None::<u64>)
}

/// Whether two cache views agree on every entry they share: no (rule,
/// fingerprint) pair carries different condition values or different
/// action values in the two.
pub open spec fn cache_agree(a: CacheView, b: CacheView) -> bool {
    (forall|rn: Seq<char>, h: u64|
        #![trigger cache_condition(a, rn, h), cache_condition(b, rn, h)]
        cache_condition(a, rn, h) is Some && cache_condition(b, rn, h) is Some
            ==> cache_condition(a, rn, h) == cache_condition(b, rn, h)) && (forall|
        rn: Seq<char>,
        h: u64,
    |
        #![trigger cache_action(a, rn, h), cache_action(b, rn, h)]
        cache_action(a, rn, h) is Some && cache_action(b, rn, h) is Some ==> cache_action(a, rn, h)
            == cache_action(b, rn, h))
}

/// A cache view is well formed when rule names are distinct and every
/// rule memo is well formed.
pub open spec fn cache_view_wf(cv: CacheView) -> bool {
    alist_distinct(cv) && forall|i: int|
        0 <= i < cv.len() ==> rule_cache_view_wf((#[trigger] cv[i]).1)
}

impl View for Cache {
    type V = CacheView;

    open spec fn view(&self) -> CacheView {
        self.rep()
    }
}

impl Clone for Cache {
    fn clone(&self) -> (r: Self)
        ensures
            r@ == self@,
    {
        clone_cache(self)
    }
}

#[verifier::loop_isolation(false)]
fn clone_cache(c: &Cache) -> (r: Cache)
    ensures
        r@ == c@,
{
    let mut rules: Vec<(RuleName, RuleCache)> = Vec::new();
    let mut i: usize = 0;
    while i < c.rules.len()
        invariant
            i <= c.rules@.len(),
            rules@.map_values(|p: (RuleName, RuleCache)| (p.0@, p.1@)) =~= c@.take(i as int),
        decreases c.rules@.len() - i,
    {
        let name = c.rules[i].0.clone();
        let rc = c.rules[i].1.clone();
        rules.push((name, rc));
        proof {
            assert(rules@.map_values(|p: (RuleName, RuleCache)| (p.0@, p.1@)) =~= c@.take(i + 1));
        }
        i = i + 1;
    }
    proof {
        assert(c@.take(c@.len() as int) =~= c@);
    }
    Cache { rules }
}

impl Cache {
    /// The stored pairs, abstracted; the body stays private to this
    /// module.
    pub closed spec fn rep(&self) -> CacheView {
        self.rules@.map_values(|p: (RuleName, RuleCache)| (p.0@, p.1@))
    }

    /// Whether rule names are distinct and every rule memo is well formed.
    pub open spec fn wf(&self) -> bool {
        cache_view_wf(self@)
    }

    /// An empty cache.
    pub fn new() -> (r: Self)
        ensures
            r@ == CacheView::empty(),
            r.wf(),
    {
        let r = Cache { rules: Vec::new() };
        proof {
            assert(r@ =~= CacheView::empty());
        }
        r
    }

    /// The stored rule names, in storage order.
    #[verifier::loop_isolation(false)]
    pub fn rule_names(&self) -> (r: Vec<&RuleName>)
        ensures
            r@.len() == self@.len(),
            forall|i: int| 0 <= i < r@.len() ==> (#[trigger] r@[i])@ == self@[i].0,
    {
        let mut out: Vec<&RuleName> = Vec::new();
        let mut i: usize = 0;
        while i < self.rules.len()
            invariant
                i <= self@.len(),
                out@.len() == i,
                forall|j: int| 0 <= j < i ==> (#[trigger] out@[j])@ == self@[j].0,
            decreases self@.len() - i,
        {
            out.push(&self.rules[i].0);
            i = i + 1;
        }
        out
    }

    /// The position of `rule_name` in the store, if present.
    #[verifier::loop_isolation(false)]
    fn rule_index(&self, rule_name: &RuleName) -> (r: Option<usize>)
        ensures
            match r {
                Some(i) => i < self@.len() && self@[i as int].0 == rule_name@ && alist_contains(
                    self@,
                    rule_name@,
                ) && find_index(self@, rule_name@) == i && alist_find(self@, rule_name@) == Some(
                    self@[i as int].1,
                ),
                None => !alist_contains(self@, rule_name@) && alist_find(self@, rule_name@)
                    == None::<RuleCacheView>,
            },
    {
        let mut i: usize = 0;
        while i < self.rules.len()
            invariant
                i <= self@.len(),
                forall|j: int| 0 <= j < i ==> (#[trigger] self@[j]).0 != rule_name@,
            decreases self@.len() - i,
        {
            if self.rules[i].0 == *rule_name {
                proof {
                    assert(self@[i as int].0 == rule_name@);
                    lemma_find_index(self@, rule_name@);
                    lemma_find_at(self@, rule_name@, i as int);
                }
                return Some(i);
            }
            i = i + 1;
        }
        proof {
            lemma_find_absent(self@, rule_name@);
            lemma_find_contains(self@, rule_name@);
        }
        None
    }

    /// The memoized condition outcome of `rule_name` at `base_state_hash`;
    /// a missing rule and a missing entry are distinct errors.
    pub fn condition(&self, rule_name: &RuleName, base_state_hash: &StateHash) -> (r: Result<
        &RuleApplies,
        CacheError,
    >)
        ensures
            match r {
                Ok(v) => cache_condition(self@, rule_name@, base_state_hash@) == Some(v@),
                Err(e) => cache_condition(self@, rule_name@, base_state_hash@) == None::<bool> && (
                if alist_contains(self@, rule_name@) {
                    e == (CacheError::ConditionNotFound { base_state_hash: *base_state_hash })
                } else {
                    e matches CacheError::RuleNotFound { rule_name: n } && n@ == rule_name@
                }),
            },
    {
        match self.rule_index(rule_name) {
            Some(i) => self.rules[i].1.condition(base_state_hash),
            None => Err(CacheError::RuleNotFound { rule_name: rule_name.clone() }),
        }
    }

    /// The memoized successor of `rule_name` at `base_state_hash`; a
    /// missing rule and a missing entry are distinct errors.
    pub fn action(&self, rule_name: &RuleName, base_state_hash: &StateHash) -> (r: Result<
        StateHash,
        CacheError,
    >)
        ensures
            match r {
                Ok(v) => cache_action(self@, rule_name@, base_state_hash@) == Some(v@),
                Err(e) => cache_action(self@, rule_name@, base_state_hash@) == None::<u64> && (
                if alist_contains(self@, rule_name@) {
                    e == (CacheError::ActionNotFound { base_state_hash: *base_state_hash })
                } else {
                    e matches CacheError::RuleNotFound { rule_name: n } && n@ == rule_name@
                }),
            },
    {
        match self.rule_index(rule_name) {
            Some(i) => match self.rules[i].1.action(base_state_hash) {
                Ok(h) => Ok(*h),
                Err(e) => Err(e),
            },
            None => Err(CacheError::RuleNotFound { rule_name: rule_name.clone() }),
        }
    }

    /// Whether a condition entry exists for `rule_name` at
    /// `base_state_hash`; a missing rule is `false`, not an error.
    pub fn contains_condition(&self, rule_name: &RuleName, base_state_hash: &StateHash) -> (r:
        Result<bool, CacheError>)
        ensures
            r == Ok::<bool, CacheError>(
                cache_condition(self@, rule_name@, base_state_hash@) is Some,
            ),
    {
        match self.condition(rule_name, base_state_hash) {
            Ok(v) => Ok(true),
            Err(e) => Ok(false),
        }
    }

    /// Whether an action entry exists for `rule_name` at
    /// `base_state_hash`; a missing rule is `false`, not an error.
    pub fn contains_action(&self, rule_name: &RuleName, base_state_hash: &StateHash) -> (r: Result<
        bool,
        CacheError,
    >)
        ensures
            r == Ok::<bool, CacheError>(cache_action(self@, rule_name@, base_state_hash@) is Some),
    {
        match self.action(rule_name, base_state_hash) {
            Ok(v) => Ok(true),
            Err(e) => Ok(false),
        }
    }

    /// What a successful condition write does to the cache view: the
    /// rule's memo gains the entry, a missing rule memo is created.
    pub open spec fn spec_add_condition(
        cv: CacheView,
        rule_name: Seq<char>,
        base_hash: u64,
        applies: bool,
    ) -> Result<CacheView, bool> {
        match alist_find(cv, rule_name) {
            None => Ok(
                alist_insert(
                    cv,
                    rule_name,
                    (
                        Seq::<(u64, bool)>::empty().push((base_hash, applies)),
                        Seq::<(u64, u64)>::empty(),
                    ),
                ),
            ),
            Some(rc) => match alist_write_once(rc.0, base_hash, applies) {
                Ok(m) => Ok(alist_insert(cv, rule_name, (m, rc.1))),
                Err(w) => Err(w),
            },
        }
    }

    /// What a successful action write does to the cache view.
    pub open spec fn spec_add_action(
        cv: CacheView,
        rule_name: Seq<char>,
        base_hash: u64,
        new_hash: u64,
    ) -> Result<CacheView, u64> {
        match alist_find(cv, rule_name) {
            None => Ok(
                alist_insert(
                    cv,
                    rule_name,
                    (
                        Seq::<(u64, bool)>::empty(),
                        Seq::<(u64, u64)>::empty().push((base_hash, new_hash)),
                    ),
                ),
            ),
            Some(rc) => match alist_write_once(rc.1, base_hash, new_hash) {
                Ok(m) => Ok(alist_insert(cv, rule_name, (rc.0, m))),
                Err(w) => Err(w),
            },
        }
    }

    /// Writes a condition entry once; a missing rule memo is created
    /// implicitly. An agreeing rewrite succeeds silently; a differing one
    /// is refused and changes nothing.
    pub fn add_condition(
        &mut self,
        rule_name: RuleName,
        base_state_hash: StateHash,
        applies: RuleApplies,
    ) -> (r: Result<(), CacheError>)
        requires
            old(self).wf(),
        ensures
            final(self).wf(),
            match r {
                Ok(u) => Cache::spec_add_condition(
                    old(self)@,
                    rule_name@,
                    base_state_hash@,
                    applies@,
                ) == Ok::<CacheView, bool>(final(self)@),
                Err(e) => Cache::spec_add_condition(
                    old(self)@,
                    rule_name@,
                    base_state_hash@,
                    applies@,
                ) == Err::<CacheView, bool>(!applies@) && final(self)@ == old(self)@ && e == (
                CacheError::ConditionAlreadyExists { base_state_hash, applies }),
            },
    {
        let ghost cv = self@;
        match self.rule_index(&rule_name) {
            Some(i) => {
                let ghost rc = cv[i as int].1;
                let entry = &mut self.rules[i].1;
                let res = entry.add_condition(base_state_hash, applies);
                proof {
                    assert(self@ =~= cv.update(i as int, (cv[i as int].0, self@[i as int].1)));
                    assert((cv[i as int].0, self@[i as int].1) == (rule_name@, self@[i as int].1));
                    lemma_distinct_insert(cv, rule_name@, self@[i as int].1);
                    assert(self@ == alist_insert(cv, rule_name@, self@[i as int].1));
                    assert forall|k: int| 0 <= k < self@.len() implies rule_cache_view_wf(
                        (#[trigger] self@[k]).1,
                    ) by {
                        if k != i {
                            assert(self@[k] == cv[k]);
                        }
                    }
                }
                res
            },
            None => {
                proof {
                    lemma_distinct_insert(cv, rule_name@, ((Seq::<(u64, bool)>::empty().push(
                        (base_state_hash@, applies@),
                    ), Seq::<(u64, u64)>::empty())));
                }
                let mut condition: Vec<(StateHash, RuleApplies)> = Vec::new();
                condition.push((base_state_hash, applies));
                let rc = RuleCache { condition, actions: Vec::new() };
                proof {
                    assert(rc@.0 =~= Seq::<(u64, bool)>::empty().push((base_state_hash@, applies@)));
                    assert(rc@.1 =~= Seq::<(u64, u64)>::empty());
                }
                self.rules.push((rule_name, rc));
                proof {
                    assert(self@ =~= cv.push(
                        (rule_name@, (Seq::<(u64, bool)>::empty().push(
                            (base_state_hash@, applies@),
                        ), Seq::<(u64, u64)>::empty())),
                    ));
                    assert forall|k: int| 0 <= k < self@.len() implies rule_cache_view_wf(
                        (#[trigger] self@[k]).1,
                    ) by {
                        if k < cv.len() {
                            assert(self@[k] == cv[k]);
                        }
                    }
                }
                Ok(())
            },
        }
    }

    /// Writes an action entry once; a missing rule memo is created
    /// implicitly. An agreeing rewrite succeeds silently; a differing one
    /// is refused and changes nothing.
    pub fn add_action(
        &mut self,
        rule_name: RuleName,
        base_state_hash: StateHash,
        new_state_hash: StateHash,
    ) -> (r: Result<(), CacheError>)
        requires
            old(self).wf(),
        ensures
            final(self).wf(),
            match r {
                Ok(u) => Cache::spec_add_action(
                    old(self)@,
                    rule_name@,
                    base_state_hash@,
                    new_state_hash@,
                ) == Ok::<CacheView, u64>(final(self)@),
                Err(e) => (Cache::spec_add_action(
                    old(self)@,
                    rule_name@,
                    base_state_hash@,
                    new_state_hash@,
                ) matches Err(w) && final(self)@ == old(self)@ && e == (
                CacheError::ActionAlreadyExists { base_state_hash, new_state_hash }) && w
                    != new_state_hash@),
            },
    {
        let ghost cv = self@;
        match self.rule_index(&rule_name) {
            Some(i) => {
                let ghost rc = cv[i as int].1;
                let entry = &mut self.rules[i].1;
                let res = entry.add_action(base_state_hash, new_state_hash);
                proof {
                    assert(self@ =~= cv.update(i as int, (cv[i as int].0, self@[i as int].1)));
                    assert((cv[i as int].0, self@[i as int].1) == (rule_name@, self@[i as int].1));
                    lemma_distinct_insert(cv, rule_name@, self@[i as int].1);
                    assert(self@ == alist_insert(cv, rule_name@, self@[i as int].1));
                    assert forall|k: int| 0 <= k < self@.len() implies rule_cache_view_wf(
                        (#[trigger] self@[k]).1,
                    ) by {
                        if k != i {
                            assert(self@[k] == cv[k]);
                        }
                    }
                }
                res
            },
            None => {
                proof {
                    lemma_distinct_insert(cv, rule_name@, ((Seq::<(u64, bool)>::empty(), Seq::<
                        (u64, u64),
                    >::empty().push((base_state_hash@, new_state_hash@)))));
                }
                let mut actions: Vec<(StateHash, StateHash)> = Vec::new();
                actions.push((base_state_hash, new_state_hash));
                let rc = RuleCache { condition: Vec::new(), actions };
                proof {
                    assert(rc@.0 =~= Seq::<(u64, bool)>::empty());
                    assert(rc@.1 =~= Seq::<(u64, u64)>::empty().push(
                        (base_state_hash@, new_state_hash@),
                    ));
                }
                self.rules.push((rule_name, rc));
                proof {
                    assert(self@ =~= cv.push(
                        (rule_name@, (Seq::<(u64, bool)>::empty(), Seq::<(u64, u64)>::empty().push(
                            (base_state_hash@, new_state_hash@),
                        ))),
                    ));
                    assert forall|k: int| 0 <= k < self@.len() implies rule_cache_view_wf(
                        (#[trigger] self@[k]).1,
                    ) by {
                        if k < cv.len() {
                            assert(self@[k] == cv[k]);
                        }
                    }
                }
                Ok(())
            },
        }
    }
}

/// A freshly evaluated condition entry, handed back to the driver to be
/// written into the cache when the evaluation round is merged.
#[derive(Clone, Debug, PartialEq)]
pub struct ConditionCacheUpdate {
    pub rule_name: RuleName,
    pub base_state_hash: StateHash,
    pub applies: RuleApplies,
}

impl ConditionCacheUpdate {
    /// Builds the record from its fields.
    pub fn new(rule_name: RuleName, base_state_hash: StateHash, applies: RuleApplies) -> (r:
        ConditionCacheUpdate)
        ensures
            r.rule_name == rule_name,
            r.base_state_hash == base_state_hash,
            r.applies == applies,
    {
        ConditionCacheUpdate { rule_name, base_state_hash, applies }
    }
}

/// A freshly computed action entry, handed back like
/// [`ConditionCacheUpdate`].
#[derive(Clone, Debug, PartialEq)]
pub struct ActionCacheUpdate {
    pub rule_name: RuleName,
    pub base_state_hash: StateHash,
    pub new_state_hash: StateHash,
}

impl ActionCacheUpdate {
    /// Builds the record from its fields.
    pub fn new(rule_name: RuleName, base_state_hash: StateHash, new_state_hash: StateHash) -> (r:
        ActionCacheUpdate)
        ensures
            r.rule_name == rule_name,
            r.base_state_hash == base_state_hash,
            r.new_state_hash == new_state_hash,
    {
        ActionCacheUpdate { rule_name, base_state_hash, new_state_hash }
    }
}

impl Cache {
    /// Writes the condition entry a [`ConditionCacheUpdate`] carries,
    /// with the write-once law of [`Cache::add_condition`].
    pub fn apply_condition_update(&mut self, update: ConditionCacheUpdate) -> (r: Result<
        (),
        CacheError,
    >)
        requires
            old(self).wf(),
        ensures
            final(self).wf(),
            match r {
                Ok(u) => Cache::spec_add_condition(
                    old(self)@,
                    update.rule_name@,
                    update.base_state_hash@,
                    update.applies@,
                ) == Ok::<CacheView, bool>(final(self)@),
                Err(e) => Cache::spec_add_condition(
                    old(self)@,
                    update.rule_name@,
                    update.base_state_hash@,
                    update.applies@,
                ) == Err::<CacheView, bool>(!update.applies@) && final(self)@ == old(self)@ && e
                    == (CacheError::ConditionAlreadyExists {
                    base_state_hash: update.base_state_hash,
                    applies: update.applies,
                }),
            },
    {
        self.add_condition(update.rule_name, update.base_state_hash, update.applies)
    }

    /// Writes the action entry an [`ActionCacheUpdate`] carries, with the
    /// write-once law of [`Cache::add_action`].
    pub fn apply_action_update(&mut self, update: ActionCacheUpdate) -> (r: Result<(), CacheError>)
        requires
            old(self).wf(),
        ensures
            final(self).wf(),
            match r {
                Ok(u) => Cache::spec_add_action(
                    old(self)@,
                    update.rule_name@,
                    update.base_state_hash@,
                    update.new_state_hash@,
                ) == Ok::<CacheView, u64>(final(self)@),
                Err(e) => (Cache::spec_add_action(
                    old(self)@,
                    update.rule_name@,
                    update.base_state_hash@,
                    update.new_state_hash@,
                ) matches Err(w) && w != update.new_state_hash@ && final(self)@ == old(self)@ && e
                    == (CacheError::ActionAlreadyExists {
                    base_state_hash: update.base_state_hash,
                    new_state_hash: update.new_state_hash,
                })),
            },
    {
        self.add_action(update.rule_name, update.base_state_hash, update.new_state_hash)
    }
}

/// What a successful condition write leaves in the cache: the written
/// entry, and every other entry untouched.
pub proof fn lemma_spec_add_condition_find(
    cv: CacheView,
    rn: Seq<char>,
    h: u64,
    v: bool,
    rn2: Seq<char>,
    h2: u64,
)
    requires
        cache_view_wf(cv),
        Cache::spec_add_condition(cv, rn, h, v) is Ok,
    ensures
        Cache::spec_add_condition(cv, rn, h, v) matches Ok(cv2) ==> {
            &&& cache_view_wf(cv2)
            &&& cache_condition(cv2, rn2, h2) == if rn2 == rn && h2 == h {
                Some(v)
            } else {
                cache_condition(cv, rn2, h2)
            }
            &&& cache_action(cv2, rn2, h2) == cache_action(cv, rn2, h2)
        },
{
    match alist_find(cv, rn) {
        None => {
            let memo = (
                Seq::<(u64, bool)>::empty().push((h, v)),
                Seq::<(u64, u64)>::empty(),
            );
            let cv2 = alist_insert(cv, rn, memo);
            lemma_find_insert(cv, rn, memo, rn2);
            lemma_distinct_insert(cv, rn, memo);
            lemma_find_push(Seq::<(u64, bool)>::empty(), h, v, h2);
            assert(alist_find(Seq::<(u64, bool)>::empty(), h2) == None::<bool>);
            assert(alist_find(Seq::<(u64, u64)>::empty(), h2) == None::<u64>);
            assert(alist_distinct(memo.0)) by {
                lemma_find_contains(Seq::<(u64, bool)>::empty(), h);
                lemma_distinct_push(Seq::<(u64, bool)>::empty(), h, v);
            }
            lemma_find_contains(cv, rn);
            assert forall|k: int| 0 <= k < cv2.len() implies rule_cache_view_wf(
                (#[trigger] cv2[k]).1,
            ) by {
                if k < cv.len() {
                    assert(cv2[k] == cv[k]);
                } else {
                    assert(cv2[k] == (rn, memo));
                }
            }
        },
        Some(rc) => {
            lemma_find_contains(cv, rn);
            lemma_find_index(cv, rn);
            let fi = find_index(cv, rn);
            assert(rc == cv[fi].1);
            match alist_write_once(rc.0, h, v) {
                Ok(m) => {
                    let memo = (m, rc.1);
                    let cv2 = alist_insert(cv, rn, memo);
                    lemma_find_insert(cv, rn, memo, rn2);
                    lemma_distinct_insert(cv, rn, memo);
                    lemma_write_once_find(rc.0, h, v, h2);
                    lemma_write_once_distinct(rc.0, h, v);
                    assert forall|k: int| 0 <= k < cv2.len() implies rule_cache_view_wf(
                        (#[trigger] cv2[k]).1,
                    ) by {
                        if cv2[k] != (rn, memo) {
                            assert(cv2 == cv.update(fi, (rn, memo)));
                            assert(cv2[k] == cv[k]);
                        }
                    }
                },
                Err(w) => {
                },
            }
        },
    }
}

/// What a successful action write leaves in the cache: the written entry,
/// and every other entry untouched.
pub proof fn lemma_spec_add_action_find(
    cv: CacheView,
    rn: Seq<char>,
    h: u64,
    v: u64,
    rn2: Seq<char>,
    h2: u64,
)
    requires
        cache_view_wf(cv),
        Cache::spec_add_action(cv, rn, h, v) is Ok,
    ensures
        Cache::spec_add_action(cv, rn, h, v) matches Ok(cv2) ==> {
            &&& cache_view_wf(cv2)
            &&& cache_action(cv2, rn2, h2) == if rn2 == rn && h2 == h {
                Some(v)
            } else {
                cache_action(cv, rn2, h2)
            }
            &&& cache_condition(cv2, rn2, h2) == cache_condition(cv, rn2, h2)
        },
{
    match alist_find(cv, rn) {
        None => {
            let memo = (
                Seq::<(u64, bool)>::empty(),
                Seq::<(u64, u64)>::empty().push((h, v)),
            );
            let cv2 = alist_insert(cv, rn, memo);
            lemma_find_insert(cv, rn, memo, rn2);
            lemma_distinct_insert(cv, rn, memo);
            lemma_find_push(Seq::<(u64, u64)>::empty(), h, v, h2);
            assert(alist_find(Seq::<(u64, u64)>::empty(), h2) == None::<u64>);
            assert(alist_find(Seq::<(u64, bool)>::empty(), h2) == None::<bool>);
            assert(alist_distinct(memo.1)) by {
                lemma_find_contains(Seq::<(u64, u64)>::empty(), h);
                lemma_distinct_push(Seq::<(u64, u64)>::empty(), h, v);
            }
            lemma_find_contains(cv, rn);
            assert forall|k: int| 0 <= k < cv2.len() implies rule_cache_view_wf(
                (#[trigger] cv2[k]).1,
            ) by {
                if k < cv.len() {
                    assert(cv2[k] == cv[k]);
                } else {
                    assert(cv2[k] == (rn, memo));
                }
            }
        },
        Some(rc) => {
            lemma_find_contains(cv, rn);
            lemma_find_index(cv, rn);
            let fi = find_index(cv, rn);
            assert(rc == cv[fi].1);
            match alist_write_once(rc.1, h, v) {
                Ok(m) => {
                    let memo = (rc.0, m);
                    let cv2 = alist_insert(cv, rn, memo);
                    lemma_find_insert(cv, rn, memo, rn2);
                    lemma_distinct_insert(cv, rn, memo);
                    lemma_write_once_find(rc.1, h, v, h2);
                    lemma_write_once_distinct(rc.1, h, v);
                    assert forall|k: int| 0 <= k < cv2.len() implies rule_cache_view_wf(
                        (#[trigger] cv2[k]).1,
                    ) by {
                        if cv2[k] != (rn, memo) {
                            assert(cv2 == cv.update(fi, (rn, memo)));
                            assert(cv2[k] == cv[k]);
                        }
                    }
                },
                Err(w) => {
                },
            }
        },
    }
}

impl Cache {
    /// Folds every entry of `cache` into this cache with the write-once
    /// rule, condition entries first per rule. Caches that agree on every
    /// shared entry always merge: the result then holds exactly the union
    /// of the two (it extends both, and holds nothing else). A refused
    /// rewrite means the two caches disagree somewhere; the merge stops
    /// there, old entries all intact, with the entries folded so far
    /// already committed.
    #[verifier::loop_isolation(false)]
    pub fn merge(&mut self, cache: &Cache) -> (r: Result<(), CacheError>)
        requires
            old(self).wf(),
            cache.wf(),
        ensures
            final(self).wf(),
            cache_extends(old(self)@, final(self)@),
            forall|rn: Seq<char>, h: u64|
                #[trigger] cache_condition(final(self)@, rn, h) is Some ==> cache_condition(
                    old(self)@,
                    rn,
                    h,
                ) == cache_condition(final(self)@, rn, h) || cache_condition(cache@, rn, h)
                    == cache_condition(final(self)@, rn, h),
            forall|rn: Seq<char>, h: u64|
                #[trigger] cache_action(final(self)@, rn, h) is Some ==> cache_action(
                    old(self)@,
                    rn,
                    h,
                ) == cache_action(final(self)@, rn, h) || cache_action(cache@, rn, h)
                    == cache_action(final(self)@, rn, h),
            cache_agree(old(self)@, cache@) ==> r is Ok,
            match r {
                Ok(u) => cache_extends(cache@, final(self)@),
                Err(e) => !cache_agree(old(self)@, cache@),
            },
    {
        let ghost cv0 = self@;
        let ghost src = cache@;
        let mut i: usize = 0;
        while i < cache.rules.len()
            invariant
                i <= src.len(),
                src == cache@,
                cache.wf(),
                self.wf(),
                cache_extends(cv0, self@),
                forall|rn: Seq<char>, h: u64|
                    #[trigger] cache_condition(self@, rn, h) is Some ==> cache_condition(
                        cv0,
                        rn,
                        h,
                    ) == cache_condition(self@, rn, h) || cache_condition(src, rn, h)
                        == cache_condition(self@, rn, h),
                forall|rn: Seq<char>, h: u64|
                    #[trigger] cache_action(self@, rn, h) is Some ==> cache_action(cv0, rn, h)
                        == cache_action(self@, rn, h) || cache_action(src, rn, h) == cache_action(
                        self@,
                        rn,
                        h,
                    ),
                forall|a: int, b: int|
                    0 <= a < i && 0 <= b < (#[trigger] src[a]).1.0.len()
                        ==> cache_condition(self@, src[a].0, (#[trigger] src[a].1.0[b]).0)
                        == Some(src[a].1.0[b].1),
                forall|a: int, b: int|
                    0 <= a < i && 0 <= b < (#[trigger] src[a]).1.1.len()
                        ==> cache_action(self@, src[a].0, (#[trigger] src[a].1.1[b]).0)
                        == Some(src[a].1.1[b].1),
            decreases src.len() - i,
        {
            let rule = &cache.rules[i];
            let ghost rn = src[i as int].0;
            let mut j: usize = 0;
            while j < rule.1.condition.len()
                invariant
                    i < src.len(),
                    j <= src[i as int].1.0.len(),
                    src == cache@,
                    rn == src[i as int].0,
                    rule == &cache.rules[i as int],
                    rule.1@ == src[i as int].1,
                    cache.wf(),
                    self.wf(),
                    cache_extends(cv0, self@),
                    forall|rn: Seq<char>, h: u64|
                        #[trigger] cache_condition(self@, rn, h) is Some ==> cache_condition(
                            cv0,
                            rn,
                            h,
                        ) == cache_condition(self@, rn, h) || cache_condition(src, rn, h)
                            == cache_condition(self@, rn, h),
                    forall|rn: Seq<char>, h: u64|
                        #[trigger] cache_action(self@, rn, h) is Some ==> cache_action(cv0, rn, h)
                            == cache_action(self@, rn, h) || cache_action(src, rn, h)
                                == cache_action(self@, rn, h),
                    forall|a: int, b: int|
                        0 <= a < i && 0 <= b < (#[trigger] src[a]).1.0.len()
                            ==> cache_condition(self@, src[a].0, (#[trigger] src[a].1.0[b]).0)
                            == Some(src[a].1.0[b].1),
                    forall|a: int, b: int|
                        0 <= a < i && 0 <= b < (#[trigger] src[a]).1.1.len()
                            ==> cache_action(self@, src[a].0, (#[trigger] src[a].1.1[b]).0)
                            == Some(src[a].1.1[b].1),
                    forall|b: int|
                        0 <= b < j ==> cache_condition(
                            self@,
                            rn,
                            (#[trigger] src[i as int].1.0[b]).0,
                        ) == Some(src[i as int].1.0[b].1),
                decreases rule.1.condition@.len() - j,
            {
                let h = rule.1.condition[j].0;
                let v = rule.1.condition[j].1;
                let ghost before = self@;
                proof {
                    assert(alist_contains(src, rn)) by {
                        assert(src[i as int].0 == rn);
                    }
                    lemma_find_index(src, rn);
                    assert(find_index(src, rn) == i);
                    assert(alist_find(src, rn) == Some(src[i as int].1));
                    assert(src[i as int].1.0[j as int] == (h@, v@));
                    assert(alist_contains(src[i as int].1.0, h@)) by {
                        assert(src[i as int].1.0[j as int].0 == h@);
                    }
                    assert(rule_cache_view_wf(src[i as int].1));
                    lemma_find_index(src[i as int].1.0, h@);
                    assert(find_index(src[i as int].1.0, h@) == j);
                    assert(cache_condition(src, rn, h@) == Some(v@));
                }
                match self.add_condition(rule.0.clone(), h, v) {
                    Ok(u) => {
                        proof {
                            assert forall|rn2: Seq<char>, h2: u64|
                                #[trigger] cache_condition(self@, rn2, h2) == if rn2 == rn && h2
                                    == h@ {
                                    Some(v@)
                                } else {
                                    cache_condition(before, rn2, h2)
                                } by {
                                lemma_spec_add_condition_find(before, rn, h@, v@, rn2, h2);
                            }
                            assert forall|rn2: Seq<char>, h2: u64|
                                #[trigger] cache_action(self@, rn2, h2) == cache_action(
                                before,
                                rn2,
                                h2,
                            ) by {
                                lemma_spec_add_condition_find(before, rn, h@, v@, rn2, h2);
                            }
                            assert(cache_condition(before, rn, h@) == None::<bool>
                                || cache_condition(before, rn, h@) == Some(v@));
                            assert forall|a: int| 0 <= a < i implies (#[trigger] src[a]).0
                                != rn by {
                                assert(src[a].0 != src[i as int].0);
                            }
                            assert forall|b: int| 0 <= b < j implies (
                            #[trigger] src[i as int].1.0[b]).0 != h@ by {
                                assert(rule_cache_view_wf(src[i as int].1));
                                assert(src[i as int].1.0[b].0 != src[i as int].1.0[j as int].0);
                            }
                            assert forall|rn2: Seq<char>, h2: u64|
                                #[trigger] cache_condition(self@, rn2, h2) is Some implies
                                cache_condition(cv0, rn2, h2) == cache_condition(self@, rn2, h2)
                                    || cache_condition(src, rn2, h2) == cache_condition(
                                    self@,
                                    rn2,
                                    h2,
                                ) by {
                                if rn2 == rn && h2 == h@ {
                                    assert(cache_condition(self@, rn2, h2) == Some(v@));
                                    assert(cache_condition(src, rn2, h2) == Some(v@));
                                }
                            }
                            assert forall|rn2: Seq<char>, h2: u64|
                                #[trigger] cache_action(self@, rn2, h2) is Some implies
                                cache_action(cv0, rn2, h2) == cache_action(self@, rn2, h2)
                                    || cache_action(src, rn2, h2) == cache_action(
                                    self@,
                                    rn2,
                                    h2,
                                ) by {}
                        }
                    },
                    Err(e) => {
                        proof {
                            assert(cache_condition(before, rn, h@) == Some(!v@));
                            assert(cache_condition(cv0, rn, h@) == Some(!v@) || cache_condition(
                                src,
                                rn,
                                h@,
                            ) == Some(!v@));
                            assert(cache_condition(cv0, rn, h@) == Some(!v@));
                            assert(!cache_agree(cv0, src)) by {
                                assert(cache_condition(cv0, rn, h@) is Some && cache_condition(
                                    src,
                                    rn,
                                    h@,
                                ) is Some && cache_condition(cv0, rn, h@) != cache_condition(
                                    src,
                                    rn,
                                    h@,
                                ));
                            }
                        }
                        return Err(e);
                    },
                }
                j = j + 1;
            }
            let mut k: usize = 0;
            while k < rule.1.actions.len()
                invariant
                    i < src.len(),
                    k <= src[i as int].1.1.len(),
                    src == cache@,
                    rn == src[i as int].0,
                    rule == &cache.rules[i as int],
                    rule.1@ == src[i as int].1,
                    cache.wf(),
                    self.wf(),
                    cache_extends(cv0, self@),
                    forall|rn: Seq<char>, h: u64|
                        #[trigger] cache_condition(self@, rn, h) is Some ==> cache_condition(
                            cv0,
                            rn,
                            h,
                        ) == cache_condition(self@, rn, h) || cache_condition(src, rn, h)
                            == cache_condition(self@, rn, h),
                    forall|rn: Seq<char>, h: u64|
                        #[trigger] cache_action(self@, rn, h) is Some ==> cache_action(cv0, rn, h)
                            == cache_action(self@, rn, h) || cache_action(src, rn, h)
                                == cache_action(self@, rn, h),
                    forall|a: int, b: int|
                        0 <= a < i && 0 <= b < (#[trigger] src[a]).1.0.len()
                            ==> cache_condition(self@, src[a].0, (#[trigger] src[a].1.0[b]).0)
                            == Some(src[a].1.0[b].1),
                    forall|a: int, b: int|
                        0 <= a < i && 0 <= b < (#[trigger] src[a]).1.1.len()
                            ==> cache_action(self@, src[a].0, (#[trigger] src[a].1.1[b]).0)
                            == Some(src[a].1.1[b].1),
                    forall|b: int|
                        0 <= b < src[i as int].1.0.len() ==> cache_condition(
                            self@,
                            rn,
                            (#[trigger] src[i as int].1.0[b]).0,
                        ) == Some(src[i as int].1.0[b].1),
                    forall|b: int|
                        0 <= b < k ==> cache_action(
                            self@,
                            rn,
                            (#[trigger] src[i as int].1.1[b]).0,
                        ) == Some(src[i as int].1.1[b].1),
                decreases rule.1.actions@.len() - k,
            {
                let h = rule.1.actions[k].0;
                let v = rule.1.actions[k].1;
                let ghost before = self@;
                proof {
                    assert(alist_contains(src, rn)) by {
                        assert(src[i as int].0 == rn);
                    }
                    lemma_find_index(src, rn);
                    assert(find_index(src, rn) == i);
                    assert(alist_find(src, rn) == Some(src[i as int].1));
                    assert(src[i as int].1.1[k as int] == (h@, v@));
                    assert(alist_contains(src[i as int].1.1, h@)) by {
                        assert(src[i as int].1.1[k as int].0 == h@);
                    }
                    assert(rule_cache_view_wf(src[i as int].1));
                    lemma_find_index(src[i as int].1.1, h@);
                    assert(find_index(src[i as int].1.1, h@) == k);
                    assert(cache_action(src, rn, h@) == Some(v@));
                }
                match self.add_action(rule.0.clone(), h, v) {
                    Ok(u) => {
                        proof {
                            assert forall|rn2: Seq<char>, h2: u64|
                                #[trigger] cache_action(self@, rn2, h2) == if rn2 == rn && h2
                                    == h@ {
                                    Some(v@)
                                } else {
                                    cache_action(before, rn2, h2)
                                } by {
                                lemma_spec_add_action_find(before, rn, h@, v@, rn2, h2);
                            }
                            assert forall|rn2: Seq<char>, h2: u64|
                                #[trigger] cache_condition(self@, rn2, h2) == cache_condition(
                                before,
                                rn2,
                                h2,
                            ) by {
                                lemma_spec_add_action_find(before, rn, h@, v@, rn2, h2);
                            }
                            assert(cache_action(before, rn, h@) == None::<u64> || cache_action(
                                before,
                                rn,
                                h@,
                            ) == Some(v@));
                            assert forall|a: int| 0 <= a < i implies (#[trigger] src[a]).0
                                != rn by {
                                assert(src[a].0 != src[i as int].0);
                            }
                            assert forall|b: int| 0 <= b < k implies (
                            #[trigger] src[i as int].1.1[b]).0 != h@ by {
                                assert(rule_cache_view_wf(src[i as int].1));
                                assert(src[i as int].1.1[b].0 != src[i as int].1.1[k as int].0);
                            }
                            assert forall|rn2: Seq<char>, h2: u64|
                                #[trigger] cache_action(self@, rn2, h2) is Some implies
                                cache_action(cv0, rn2, h2) == cache_action(self@, rn2, h2)
                                    || cache_action(src, rn2, h2) == cache_action(
                                    self@,
                                    rn2,
                                    h2,
                                ) by {
                                if rn2 == rn && h2 == h@ {
                                    assert(cache_action(self@, rn2, h2) == Some(v@));
                                    assert(cache_action(src, rn2, h2) == Some(v@));
                                }
                            }
                            assert forall|rn2: Seq<char>, h2: u64|
                                #[trigger] cache_condition(self@, rn2, h2) is Some implies
                                cache_condition(cv0, rn2, h2) == cache_condition(self@, rn2, h2)
                                    || cache_condition(src, rn2, h2) == cache_condition(
                                    self@,
                                    rn2,
                                    h2,
                                ) by {}
                        }
                    },
                    Err(e) => {
                        proof {
                            assert(cache_action(before, rn, h@) is Some);
                            assert(cache_action(before, rn, h@) != Some(v@));
                            assert(cache_action(cv0, rn, h@) == cache_action(before, rn, h@)
                                || cache_action(src, rn, h@) == cache_action(before, rn, h@));
                            assert(cache_action(cv0, rn, h@) == cache_action(before, rn, h@));
                            assert(!cache_agree(cv0, src)) by {
                                assert(cache_action(cv0, rn, h@) is Some && cache_action(
                                    src,
                                    rn,
                                    h@,
                                ) is Some && cache_action(cv0, rn, h@) != cache_action(
                                    src,
                                    rn,
                                    h@,
                                ));
                            }
                        }
                        return Err(e);
                    },
                }
                k = k + 1;
            }
            i = i + 1;
        }
        proof {
            assert forall|rn2: Seq<char>, h2: u64|
                #[trigger] cache_condition(self@, rn2, h2) == cache_condition(src, rn2, h2)
                    || cache_condition(src, rn2, h2) == None::<bool> by {
                if cache_condition(src, rn2, h2) is Some {
                    lemma_find_contains(src, rn2);
                    lemma_find_index(src, rn2);
                    let a = find_index(src, rn2);
                    lemma_find_contains(src[a].1.0, h2);
                    lemma_find_index(src[a].1.0, h2);
                }
            }
            assert forall|rn2: Seq<char>, h2: u64|
                #[trigger] cache_action(self@, rn2, h2) == cache_action(src, rn2, h2)
                    || cache_action(src, rn2, h2) == None::<u64> by {
                if cache_action(src, rn2, h2) is Some {
                    lemma_find_contains(src, rn2);
                    lemma_find_index(src, rn2);
                    let a = find_index(src, rn2);
                    lemma_find_contains(src[a].1.1, h2);
                    lemma_find_index(src[a].1.1, h2);
                }
            }
        }
        Ok(())
    }
}

} // verus!
