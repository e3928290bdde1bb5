//! A hash map whose keys are packed into one integer.

use crate::geometry::LayeredNode;
use core::marker::PhantomData;
use std::collections::HashMap;
use vstd::prelude::*;

verus! {

broadcast use vstd::std_specs::hash::group_hash_axioms;

/// A key that one 128-bit integer can stand for.
pub trait Packed: Sized {
    /// The integer that stands for this key.
    spec fn packed(self) -> u128;

    /// Distinct keys have distinct integers.
    proof fn packed_injective(a: Self, b: Self)
        requires
            a.packed() == b.packed(),
        ensures
            a == b,
    ;

    /// Computes the integer that stands for this key.
    fn pack(&self) -> (key: u128)
        ensures
            key == self.packed(),
    ;
}

/// A finite map from packed keys to values.
pub struct PackedMap<K: Packed, V> {
    entries: HashMap<u128, V>,
    keys: PhantomData<K>,
}

impl<K: Packed, V> View for PackedMap<K, V> {
    type V = Map<K, V>;

    closed spec fn view(&self) -> Map<K, V> {
        Map::new(
            |k: K| self.entries@.contains_key(k.packed()),
            |k: K| self.entries@[k.packed()],
        )
    }
}

impl<K: Packed, V> PackedMap<K, V> {
    /// Whether every stored integer stands for some key.
    pub closed spec fn wf(&self) -> bool {
        forall|packed: u128| #[trigger] self.entries@.contains_key(packed) ==> stands_for_key::<K>(
            packed,
        )
    }

    /// Creates an empty map.
    pub fn new() -> (map: Self)
        ensures
            map.wf(),
            map@ == Map::<K, V>::empty(),
    {
        let map = PackedMap { entries: HashMap::new(), keys: PhantomData };
        assert(map@ =~= Map::<K, V>::empty());
        map
    }

    /// Counts the stored keys.
    pub fn len(&self) -> (count: usize)
        requires
            self.wf(),
        ensures
            self@.dom().finite(),
            count == self@.dom().len(),
    {
        proof {
            lemma_one_key_per_integer(*self);
        }
        self.entries.len()
    }

    /// Borrows the value stored under a key.
    pub fn get(&self, key: K) -> (value: Option<&V>)
        ensures
            match value {
                Some(v) => self@.contains_key(key) && *v == self@[key],
                None => !self@.contains_key(key),
            },
    {
        let packed: u128 = key.pack();
        self.entries.get(&packed)
    }

    /// Stores a value under a key, replacing what was there.
    pub fn insert(&mut self, key: K, value: V)
        ensures
            final(self)@ == old(self)@.insert(key, value),
            old(self).wf() ==> final(self).wf(),
    {
        let packed: u128 = key.pack();
        self.entries.insert(packed, value);
        assert(stands_for_key::<K>(packed));
        proof {
            let before = old(self)@;
            let after = self@;
            assert forall|k: K| after.contains_key(k) == before.insert(key, value).contains_key(
                k,
            ) by {
                if k.packed() == key.packed() {
                    K::packed_injective(k, key);
                }
            }
            assert forall|k: K| after.contains_key(k) implies after[k] == before.insert(
                key,
                value,
            )[k] by {
                if k.packed() == key.packed() {
                    K::packed_injective(k, key);
                }
            }
            assert(after =~= before.insert(key, value));
        }
    }

    /// Takes the value stored under a key out of the map.
    pub fn remove(&mut self, key: K) -> (value: Option<V>)
        ensures
            final(self)@ == old(self)@.remove(key),
            old(self).wf() ==> final(self).wf(),
            match value {
                Some(v) => old(self)@.contains_key(key) && v == old(self)@[key],
                None => !old(self)@.contains_key(key),
            },
    {
        let packed: u128 = key.pack();
        let value = self.entries.remove(&packed);
        proof {
            let before = old(self)@;
            let after = self@;
            assert forall|k: K| after.contains_key(k) == before.remove(key).contains_key(k) by {
                if k.packed() == key.packed() {
                    K::packed_injective(k, key);
                }
            }
            assert(after =~= before.remove(key));
        }
        value
    }
}

impl<K: Packed, V: Clone> PackedMap<K, V> {
    /// Copies the map.
    pub fn copied(&self) -> (map: Self)
        ensures
            map@ == self@,
            self.wf() ==> map.wf(),
    {
        PackedMap { entries: self.entries.clone(), keys: PhantomData }
    }
}

/// Whether an integer stands for some key.
spec fn stands_for_key<K: Packed>(packed: u128) -> bool {
    exists|k: K| #[trigger] k.packed() == packed
}

/// Keys and the integers that stand for them are equal in number.
proof fn lemma_one_key_per_integer<K: Packed, V>(map: PackedMap<K, V>)
    requires
        map.wf(),
    ensures
        map@.dom().finite(),
        map@.dom().len() == map.entries@.len(),
{
    let integers = map.entries@.dom();
    let key = |packed: u128| choose|k: K| #[trigger] k.packed() == packed;
    assert forall|packed: u128| #[trigger] integers.contains(packed) implies key(packed).packed()
        == packed by {
        assert(map.entries@.contains_key(packed));
    }
    assert forall|k: K| #[trigger] integers.map(key).contains(k) == map@.dom().contains(k) by {
        if map@.dom().contains(k) {
            assert(integers.contains(k.packed()));
            K::packed_injective(key(k.packed()), k);
            assert(key(k.packed()) == k);
        }
    }
    assert(integers.map(key) =~= map@.dom());
    assert(vstd::relations::injective_on(key, integers));
    vstd::set_lib::lemma_map_size(integers, map@.dom(), key);
}

/// A z-level takes one 16-bit digit.
impl Packed for i16 {
    open spec fn packed(self) -> u128 {
        (self + 0x8000) as u128
    }

    proof fn packed_injective(a: Self, b: Self) {
    }

    fn pack(&self) -> (key: u128) {
        (*self as i32 + 0x8000) as u128
    }
}

/// A horizontal position takes two 16-bit digits.
impl Packed for (i16, i16) {
    open spec fn packed(self) -> u128 {
        ((self.0 + 0x8000) + 0x1_0000 * (self.1 + 0x8000)) as u128
    }

    proof fn packed_injective(a: Self, b: Self) {
    }

    fn pack(&self) -> (key: u128) {
        let low: u128 = (self.0 as i32 + 0x8000) as u128;
        let high: u128 = (self.1 as i32 + 0x8000) as u128;
        low + 0x1_0000 * high
    }
}

/// A turf position takes three 16-bit digits.
impl Packed for (i16, i16, i16) {
    open spec fn packed(self) -> u128 {
        ((self.0 + 0x8000) + 0x1_0000 * (self.1 + 0x8000) + 0x1_0000_0000 * (self.2
            + 0x8000)) as u128
    }

    proof fn packed_injective(a: Self, b: Self) {
    }

    fn pack(&self) -> (key: u128) {
        let low: u128 = (self.0 as i32 + 0x8000) as u128;
        let middle: u128 = (self.1 as i32 + 0x8000) as u128;
        let high: u128 = (self.2 as i32 + 0x8000) as u128;
        low + 0x1_0000 * middle + 0x1_0000_0000 * high
    }
}

/// A group and a layer take a 16-bit and a 32-bit digit.
impl Packed for (i32, i16) {
    open spec fn packed(self) -> u128 {
        ((self.1 + 0x8000) + 0x1_0000 * (self.0 + 0x8000_0000)) as u128
    }

    proof fn packed_injective(a: Self, b: Self) {
    }

    fn pack(&self) -> (key: u128) {
        let low: u128 = (self.1 as i32 + 0x8000) as u128;
        let high: u128 = (self.0 as i64 + 0x8000_0000) as u128;
        low + 0x1_0000 * high
    }
}

/// A layered node takes three 16-bit digits and a 32-bit one.
impl Packed for LayeredNode {
    open spec fn packed(self) -> u128 {
        ((self.x + 0x8000) + 0x1_0000 * (self.y + 0x8000) + 0x1_0000_0000 * (self.layer + 0x8000)
            + 0x1_0000_0000_0000 * (self.group + 0x8000_0000)) as u128
    }

    proof fn packed_injective(a: Self, b: Self) {
    }

    fn pack(&self) -> (key: u128) {
        let x: u128 = (self.x as i32 + 0x8000) as u128;
        let y: u128 = (self.y as i32 + 0x8000) as u128;
        let layer: u128 = (self.layer as i32 + 0x8000) as u128;
        let group: u128 = (self.group as i64 + 0x8000_0000) as u128;
        x + 0x1_0000 * y + 0x1_0000_0000 * layer + 0x1_0000_0000_0000 * group
    }
}

} // verus!
