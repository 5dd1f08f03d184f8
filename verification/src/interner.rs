//! Interning of moves: each distinct value receives a stable handle.

use std::collections::HashMap;

use rustc_hash::FxBuildHasher;
use vstd::prelude::*;

use crate::game::{first_index, lemma_first_index};

verus! {

/// A stable identifier for an interned value.
///
/// Handles are assigned in insertion order and can later be used to resolve
/// the corresponding value.
pub type Interned = u16;

/// The number of distinct values an [`Interner`] can hold: `u16::MAX`.
/// Interning one more value would exceed it.
pub const CAPACITY: usize = 65535;

#[verifier::external_type_specification]
#[verifier::external_body]
pub struct ExFxBuildHasher(FxBuildHasher);

/// Looks `key` up in `map` (`HashMap::get`).
///
/// Claims that a map with `FxBuildHasher` behaves as a finite map: the Fx hash
/// of a key is a fixed function of the key, with no per-process seed.
#[verifier::external_body]
fn fx_get(map: &HashMap<u64, Interned, FxBuildHasher>, key: u64) -> (found: Option<Interned>)
    ensures
        found == (if map@.contains_key(key) {
            Some(map@[key])
        } else {
            None::<Interned>
        }),
{
    map.get(&key).copied()
}

/// Maps `key` to `value` in `map` (`HashMap::insert`).
///
/// Claims that a map with `FxBuildHasher` behaves as a finite map: afterwards
/// `key` maps to `value` and every other key keeps its value.
#[verifier::external_body]
fn fx_insert(map: &mut HashMap<u64, Interned, FxBuildHasher>, key: u64, value: Interned)
    ensures
        final(map)@ == old(map)@.insert(key, value),
{
    map.insert(key, value);
}

/// Handles are stable: in an interner's view, which holds no value twice, a
/// value has exactly one handle, so interning it again returns the handle it
/// was given first.
pub proof fn law_one_handle_per_value(values: Seq<u64>, first: int, second: int)
    requires
        values.no_duplicates(),
        0 <= first < values.len(),
        0 <= second < values.len(),
        values[first] == values[second],
    ensures
        first == second,
{
}

proof fn lemma_distinct(values: Seq<u64>, index: Map<u64, Interned>)
    requires
        forall|i: int| 0 <= i < values.len() ==> #[trigger] index[values[i]] == i,
    ensures
        values.no_duplicates(),
{
    assert forall|i: int, j: int| 0 <= i < values.len() && 0 <= j < values.len() && i != j implies values[i] != values[j] by {
        assert(index[values[i]] == i);
        assert(index[values[j]] == j);
    }
}

/// The values after interning `value` into an interner holding `values`.
pub open spec fn intern_step(values: Seq<u64>, value: u64) -> Seq<u64> {
    if values.contains(value) {
        values
    } else {
        values.push(value)
    }
}

/// The distinct values of `calls`, in the order of their first occurrence:
/// what an interner holds after interning `calls` in turn from empty.
pub open spec fn first_seen(calls: Seq<u64>) -> Seq<u64>
    decreases calls.len(),
{
    if calls.len() == 0 {
        Seq::empty()
    } else {
        intern_step(first_seen(calls.drop_last()), calls.last())
    }
}

proof fn lemma_first_index_push(s: Seq<u64>, x: u64, y: u64)
    ensures
        s.contains(y) ==> first_index(s.push(x), y) == first_index(s, y),
        !s.contains(y) && y == x ==> first_index(s.push(x), y) == s.len(),
    decreases s.len(),
{
    if s.len() > 0 {
        assert(s.push(x).drop_first() == s.drop_first().push(x));
        if s[0] != y {
            if s.contains(y) {
                let k = choose|k: int| 0 <= k < s.len() && s[k] == y;
                assert(s.drop_first()[k - 1] == y);
            }
            lemma_first_index_push(s.drop_first(), x, y);
            if !s.contains(y) {
                assert forall|k: int| 0 <= k < s.drop_first().len() implies s.drop_first()[k] != y by {
                    assert(s.drop_first()[k] == s[k + 1]);
                }
            }
        }
    } else {
        assert(s.push(x)[0] == x);
        assert(s.push(x).drop_first() == Seq::<u64>::empty());
    }
}

/// Handles follow first occurrence: interning `calls` in turn from an empty
/// interner leaves it holding each distinct value of `calls` once, in the
/// order in which each first occurred, so that `resolve(h)` gives the
/// `h`-th distinct value interned and `iter` yields them in that order.
/// Each call of [`Interner::get_or_intern`] takes the interner from
/// `first_seen(calls)` to `first_seen(calls.push(value))`.
pub proof fn law_first_seen_order(calls: Seq<u64>)
    ensures
        first_seen(calls).no_duplicates(),
        forall|v: u64| first_seen(calls).contains(v) <==> calls.contains(v),
        forall|i: int, j: int|
            0 <= i < j < first_seen(calls).len() ==> first_index(
                calls,
                #[trigger] first_seen(calls)[i],
            ) < first_index(calls, #[trigger] first_seen(calls)[j]),
        forall|v: u64| #[trigger]
            first_seen(calls.push(v)) == intern_step(first_seen(calls), v),
    decreases calls.len(),
{
    assert forall|v: u64| #[trigger] first_seen(calls.push(v)) == intern_step(first_seen(calls), v) by {
        assert(calls.push(v).drop_last() == calls);
    }
    if calls.len() > 0 {
        let s = calls.drop_last();
        let x = calls.last();
        law_first_seen_order(s);
        let fs = first_seen(s);
        assert(calls == s.push(x));
        assert forall|v: u64| first_seen(calls).contains(v) <==> calls.contains(v) by {
            if calls.contains(v) && v != x {
                let k = choose|k: int| 0 <= k < calls.len() && calls[k] == v;
                assert(s[k] == v);
            }
            if s.contains(v) {
                let k = choose|k: int| 0 <= k < s.len() && s[k] == v;
                assert(calls[k] == v);
            }
            if !fs.contains(x) {
                assert(fs.push(x)[fs.len() as int] == x);
                if fs.contains(v) {
                    let k = choose|k: int| 0 <= k < fs.len() && fs[k] == v;
                    assert(fs.push(x)[k] == v);
                }
                if fs.push(x).contains(v) && v != x {
                    let k = choose|k: int| 0 <= k < fs.len() + 1 && fs.push(x)[k] == v;
                    assert(fs[k] == v);
                }
            }
        }
        assert forall|i: int, j: int|
            0 <= i < j < first_seen(calls).len() implies first_index(
                calls,
                #[trigger] first_seen(calls)[i],
            ) < first_index(calls, #[trigger] first_seen(calls)[j]) by {
            let a = first_seen(calls)[i];
            let b = first_seen(calls)[j];
            assert(a == fs[i]);
            assert(fs.contains(a));
            assert(s.contains(a));
            lemma_first_index_push(s, x, a);
            lemma_first_index_push(s, x, b);
            lemma_first_index(s, a);
            if j < fs.len() {
                assert(b == fs[j]);
                assert(fs.contains(b));
            } else {
                assert(b == x);
            }
        }
        if !fs.contains(x) {
            assert forall|i: int, j: int| 0 <= i < j < fs.push(x).len() implies fs.push(x)[i]
                != fs.push(x)[j] by {
                if j == fs.len() {
                    assert(fs.contains(fs[i]));
                }
            }
        }
    }
}

/// Stores unique values and assigns each one a stable handle.
///
/// The same value always maps to the same handle. Interned values are
/// retained for the lifetime of the interner, and lookups by handle preserve
/// insertion order.
#[derive(Debug)]
pub struct Interner {
    values: Vec<u64>,
    index: HashMap<u64, Interned, FxBuildHasher>,
}

impl Interner {
    #[verifier::type_invariant]
    spec fn inv(self) -> bool {
        &&& self.values@.len() <= CAPACITY
        &&& forall|v: u64| #[trigger]
            self.index@.contains_key(v) <==> self.values@.contains(v)
        &&& forall|i: int|
            0 <= i < self.values@.len() ==> #[trigger] self.index@[self.values@[i]] == i
    }

    /// The interned values, in insertion order; a value's handle is its
    /// position.
    pub closed spec fn view(self) -> Seq<u64> {
        self.values@
    }

    /// Creates a new, empty interner.
    pub fn new() -> (interner: Interner)
        ensures
            interner.view() == Seq::<u64>::empty(),
            interner.view().no_duplicates(),
    {
        let index: HashMap<u64, Interned, FxBuildHasher> = HashMap::default();
        Interner { values: Vec::new(), index }
    }

    /// Returns the number of interned values.
    pub fn len(&self) -> (n: usize)
        ensures
            n == self.view().len(),
    {
        self.values.len()
    }

    /// Returns the handle for `value` if it has been interned.
    pub fn get(&self, value: u64) -> (handle: Option<Interned>)
        ensures
            match handle {
                Some(h) => h < self.view().len() && self.view()[h as int] == value,
                None => !self.view().contains(value),
            },
    {
        proof {
            use_type_invariant(self);
        }
        let found = fx_get(&self.index, value);
        proof {
            if found is Some {
                assert(self.values@.contains(value));
                let j = choose|j: int| 0 <= j < self.values@.len() && self.values@[j] == value;
                assert(self.index@[self.values@[j]] == j);
            }
        }
        found
    }

    /// Returns the handle for `value`, inserting it if it is not already
    /// present.
    ///
    /// If `value` has been interned before, its existing handle is returned.
    /// Otherwise, `value` is stored and assigned the next available handle.
    /// A new value needs room: fewer than [`CAPACITY`] values interned, so
    /// that the count does not exceed `u16::MAX`.
    pub fn get_or_intern(&mut self, value: u64) -> (handle: Interned)
        requires
            old(self).view().contains(value) || old(self).view().len() < CAPACITY,
        ensures
            old(self).view().contains(value) ==> final(self).view() == old(self).view()
                && handle < old(self).view().len() && old(self).view()[handle as int] == value,
            !old(self).view().contains(value) ==> final(self).view() == old(self).view().push(
                value,
            ) && handle == old(self).view().len(),
            final(self).view() == intern_step(old(self).view(), value),
            final(self).view().no_duplicates(),
    {
        proof {
            use_type_invariant(&*self);
        }
        if let Some(handle) = self.get(value) {
            proof {
                lemma_distinct(self.values@, self.index@);
            }
            return handle;
        }
        let handle = self.values.len() as Interned;
        let mut taken = Interner::new();
        std::mem::swap(&mut taken, self);
        proof {
            use_type_invariant(&taken);
        }
        let Interner { mut values, mut index } = taken;
        let ghost old_values = values@;
        values.push(value);
        fx_insert(&mut index, value, handle);
        proof {
            assert forall|v: u64| #[trigger] index@.contains_key(v) <==> values@.contains(v) by {
                if v == value {
                    assert(values@[old_values.len() as int] == value);
                } else if old_values.contains(v) {
                    let j = choose|j: int| 0 <= j < old_values.len() && old_values[j] == v;
                    assert(values@[j] == v);
                } else if values@.contains(v) {
                    let j = choose|j: int| 0 <= j < values@.len() && values@[j] == v;
                    assert(old_values[j] == v);
                }
            }
            assert forall|i: int| 0 <= i < values@.len() implies #[trigger] index@[values@[i]]
                == i by {
                if i < old_values.len() {
                    assert(old_values[i] != value);
                    assert(old_values[i] == values@[i]);
                }
            }
        }
        proof {
            lemma_distinct(values@, index@);
        }
        *self = Interner { values, index };
        handle
    }

    /// Returns the interned value associated with `handle`, if it exists.
    pub fn resolve(&self, handle: Interned) -> (value: Option<&u64>)
        ensures
            value == (if (handle as int) < self.view().len() {
                Some(&self.view()[handle as int])
            } else {
                None::<&u64>
            }),
    {
        if (handle as usize) < self.values.len() {
            Some(&self.values[handle as usize])
        } else {
            None
        }
    }

    /// Returns all interned values in insertion order.
    pub fn iter(&self) -> (values: &[u64])
        ensures
            values@ == self.view(),
    {
        self.values.as_slice()
    }
}

impl Clone for Interner {
    fn clone(&self) -> (copy: Interner)
        ensures
            copy.view() == self.view(),
    {
        proof {
            use_type_invariant(self);
        }
        let values = self.values.clone();
        let index = self.index.clone();
        assert(values@ == self.values@);
        Interner { values, index }
    }
}

impl Default for Interner {
    fn default() -> (interner: Interner)
        ensures
            interner.view() == Seq::<u64>::empty(),
    {
        Interner::new()
    }
}

} // verus!
