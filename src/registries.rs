use crate::type_ids::same_type;
use std::any::TypeId;
use vstd::prelude::*;

verus! {

/// Relies on `<str as PartialEq>::eq`: two strings compare equal exactly
/// when they hold the same characters.
#[verifier::external_body]
fn same_label(a: &str, b: &str) -> (r: bool)
    ensures
        r == (a@ == b@),
{
    a == b
}

/// Names an entry of a `Registry`: the type it is registered for and a
/// label.
#[derive(Clone, Copy, Debug, PartialEq, Eq, Hash)]
pub struct RegisterKey {
    pub type_id: TypeId,
    pub label: &'static str,
}

/// Whether `a` and `b` name the same entry: same type, same label.
pub open spec fn same_key(a: RegisterKey, b: RegisterKey) -> bool {
    a.type_id == b.type_id && a.label@ == b.label@
}

/// The position of the first key of `keys` that names the same entry as
/// `key`, if any.
pub open spec fn key_position(keys: Seq<RegisterKey>, key: RegisterKey) -> Option<int> {
    if exists|i: int| 0 <= i < keys.len() && same_key(keys[i], key) {
        Some(choose|i: int| 0 <= i < keys.len() && same_key(keys[i], key))
    } else {
        None
    }
}

impl RegisterKey {
    /// The key of the type `T` with `label`.
    pub fn from_label<T: 'static>(label: &'static str) -> (r: Self)
        ensures
            r.label == label,
    {
        Self { type_id: TypeId::of::<T>(), label }
    }

    /// Whether `self` and `other` name the same entry.
    pub fn same_as(&self, other: &RegisterKey) -> (r: bool)
        ensures
            r == same_key(*self, *other),
    {
        same_type(&self.type_id, &other.type_id) && same_label(self.label, other.label)
    }
}

/// Values registered under keys, in the order of registration; a key is
/// registered at most once.
#[derive(Debug)]
pub struct Registry<T> {
    keys: Vec<RegisterKey>,
    registry: Vec<T>,
}

impl<T> Default for Registry<T> {
    fn default() -> (r: Self)
        ensures
            r.wf(),
            r.key_list() == Seq::<RegisterKey>::empty(),
            r.value_list() == Seq::<T>::empty(),
    {
        Self { keys: Vec::new(), registry: Vec::new() }
    }
}

impl<T> Registry<T> {
    /// The keys, in the order of registration.
    pub closed spec fn key_list(&self) -> Seq<RegisterKey> {
        self.keys@
    }

    /// The values, in the order of registration.
    pub closed spec fn value_list(&self) -> Seq<T> {
        self.registry@
    }

    /// A value for each key, and no two keys naming the same entry.
    pub open spec fn wf(&self) -> bool {
        &&& self.key_list().len() == self.value_list().len()
        &&& forall|i: int, j: int|
            0 <= i < self.key_list().len() && 0 <= j < self.key_list().len() && i != j
                ==> !same_key(self.key_list()[i], self.key_list()[j])
    }

    /// The position of `key` among the keys, if any.
    fn position(&self, key: &RegisterKey) -> (r: Option<usize>)
        ensures
            match r {
                Some(i) => i < self.key_list().len() && same_key(self.key_list()[i as int], *key),
                None => forall|i: int|
                    0 <= i < self.key_list().len() ==> !same_key(self.key_list()[i], *key),
            },
    {
        let mut i: usize = 0;
        while i < self.keys.len()
            invariant
                i <= self.key_list().len(),
                forall|k: int| 0 <= k < i ==> !same_key(self.key_list()[k], *key),
            decreases self.key_list().len() - i,
        {
            if self.keys[i].same_as(key) {
                return Some(i);
            }
            i = i + 1;
        }
        None
    }

    /// Registers `value` under `key`; a key already registered keeps its
    /// value, and `value` is dropped.
    pub fn register_key(&mut self, key: RegisterKey, value: T)
        requires
            old(self).wf(),
        ensures
            final(self).wf(),
            key_position(old(self).key_list(), key) is Some ==> *final(self) == *old(self),
            key_position(old(self).key_list(), key) is None ==> {
                &&& final(self).key_list() == old(self).key_list().push(key)
                &&& final(self).value_list() == old(self).value_list().push(value)
            },
    {
        match self.position(&key) {
            Some(_) => {},
            None => {
                let ghost before = self.key_list();
                self.keys.push(key);
                self.registry.push(value);
                proof {
                    assert forall|i: int, j: int|
                        0 <= i < self.key_list().len() && 0 <= j < self.key_list().len() && i
                            != j implies !same_key(self.key_list()[i], self.key_list()[j]) by {
                        if i < before.len() && j < before.len() {
                            assert(self.key_list()[i] == before[i]);
                            assert(self.key_list()[j] == before[j]);
                        } else if i < before.len() {
                            assert(self.key_list()[i] == before[i]);
                        } else if j < before.len() {
                            assert(self.key_list()[j] == before[j]);
                        }
                    }
                }
            },
        }
    }

    /// The value registered under `key`.
    pub fn get(&self, key: &RegisterKey) -> (r: Option<&T>)
        requires
            self.wf(),
        ensures
            r == match key_position(self.key_list(), *key) {
                Some(i) => Some(&self.value_list()[i]),
                None => None,
            },
    {
        match self.position(key) {
            Some(index) => {
                proof {
                    self.lemma_position_unique(*key, index as int);
                }
                Some(&self.registry[index])
            },
            None => None,
        }
    }

    /// The value registered under `key`, for writing.
    pub fn get_mut(&mut self, key: &RegisterKey) -> (r: Option<&mut T>)
        requires
            old(self).wf(),
        ensures
            final(self).wf(),
            final(self).key_list() == old(self).key_list(),
            match key_position(old(self).key_list(), *key) {
                Some(i) => {
                    &&& r is Some
                    &&& *r->Some_0 == old(self).value_list()[i]
                    &&& final(self).value_list() == old(self).value_list().update(
                        i,
                        *final(r->Some_0),
                    )
                },
                None => r is None && final(self).value_list() == old(self).value_list(),
            },
    {
        match self.position(key) {
            Some(index) => {
                proof {
                    self.lemma_position_unique(*key, index as int);
                }
                Some(&mut self.registry[index])
            },
            None => None,
        }
    }

    /// The keys, in the order of registration.
    pub fn keys(&self) -> (r: &[RegisterKey])
        ensures
            r@ == self.key_list(),
    {
        self.keys.as_slice()
    }

    /// The values, in the order of registration.
    pub fn values(&self) -> (r: &[T])
        ensures
            r@ == self.value_list(),
    {
        self.registry.as_slice()
    }

    /// The values, in the order of registration, for writing in place.
    pub fn values_mut(&mut self) -> (r: &mut [T])
        ensures
            r@ == old(self).value_list(),
            final(self).key_list() == old(self).key_list(),
            final(self).value_list() == final(r)@,
    {
        self.registry.as_mut_slice()
    }

    /// The key at `i` is the only one naming the entry of `key`.
    proof fn lemma_position_unique(&self, key: RegisterKey, i: int)
        requires
            self.wf(),
            0 <= i < self.key_list().len(),
            same_key(self.key_list()[i], key),
        ensures
            key_position(self.key_list(), key) == Some(i),
    {
        let j = choose|j: int|
            0 <= j < self.key_list().len() && same_key(self.key_list()[j], key);
        if j != i {
            assert(same_key(self.key_list()[i], self.key_list()[j]));
        }
    }
}

} // verus!
