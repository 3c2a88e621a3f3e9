//! Error records surfaced by the engine.
//!
//! The core never logs and never panics: every fallible operation returns
//! one of these records upward. Each record carries the values that made
//! the operation fail, so a caller can report or inspect them.

use vstd::prelude::*;

use crate::cache::CacheError;
use crate::state::{ActionName, Entity, EntityName, ResourceName, State, StateHash};

verus! {

/// A mandatory lookup found nothing under `key`; `container` is the value
/// that was searched.
#[derive(Clone, Debug, PartialEq, Eq)]
pub struct NotFoundError<K, C> {
    pub key: K,
    pub container: C,
}

impl<K, C> NotFoundError<K, C> {
    /// Builds the record from the missing key and the searched container.
    pub fn new(key: K, container: C) -> (r: NotFoundError<K, C>)
        ensures
            r.key == key,
            r.container == container,
    {
        NotFoundError { key, container }
    }
}

/// A write-once slot under `key` already holds a value, so `value` was
/// refused.
#[derive(Clone, Debug, PartialEq, Eq)]
pub struct AlreadyExistsError<K, V> {
    pub key: K,
    pub value: V,
}

impl<K, V> AlreadyExistsError<K, V> {
    /// Builds the record from the occupied key and the refused value.
    pub fn new(key: K, value: V) -> (r: AlreadyExistsError<K, V>)
        ensures
            r.key == key,
            r.value == value,
    {
        AlreadyExistsError { key, value }
    }
}

/// A scalar left its permitted range: `value` fell outside `[min, max]`.
#[derive(Clone, Copy, Debug, PartialEq, Eq, Structural)]
pub struct OutOfRangeError<T> {
    pub value: T,
    pub min: T,
    pub max: T,
}

impl<T> OutOfRangeError<T> {
    /// Builds the record from the offending value and its permitted range.
    pub fn new(value: T, min: T, max: T) -> (r: OutOfRangeError<T>)
        ensures
            r.value == value,
            r.min == min,
            r.max == max,
    {
        OutOfRangeError { value, min, max }
    }
}

/// Every failure the engine can surface while evaluating rules or
/// advancing the distribution.
#[derive(Debug, PartialEq)]
pub enum ErrorKind {
    /// An action named an entity the state does not hold.
    EntityNotFound(NotFoundError<EntityName, State>),
    /// An action named a resource its entity does not hold.
    ResourceNotFound(NotFoundError<ResourceName, Entity>),
    /// A cached successor fingerprint is absent from the state pool.
    StateNotFound(StateHash),
    /// Two assignments of one batch aim at the same parameter.
    Conflict(ActionName, ActionName, EntityName, ResourceName),
    /// Probability mass accumulated beyond one whole unit.
    OutOfRange(OutOfRangeError<u64>),
    /// The cache refused a lookup or a write.
    CacheErr(CacheError),
}

} // verus!
