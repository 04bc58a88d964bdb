//! Strings in order, and the sets and maps keyed by them.
//!
//! Strings are ordered by their characters' code points, first difference
//! first. [`NameSet`] and [`NameMap`] keep their keys strictly increasing in
//! that order, so no key occurs twice and walking one always goes the same way.

use crate::text::{chars_of, deep};
use vstd::prelude::*;

verus! {

// ---------------------------------------------------------------------------
// The order
// ---------------------------------------------------------------------------

/// Whether `a` comes strictly before `b`.
pub open spec fn less(a: Seq<char>, b: Seq<char>) -> bool
    decreases a.len(),
{
    if b.len() == 0 {
        false
    } else if a.len() == 0 {
        true
    } else if a[0] == b[0] {
        less(a.drop_first(), b.drop_first())
    } else {
        (a[0] as u32) < (b[0] as u32)
    }
}

pub proof fn lemma_less_irreflexive(a: Seq<char>)
    ensures
        !less(a, a),
    decreases a.len(),
{
    if a.len() > 0 {
        lemma_less_irreflexive(a.drop_first());
    }
}

pub proof fn lemma_less_transitive(a: Seq<char>, b: Seq<char>, c: Seq<char>)
    requires
        less(a, b),
        less(b, c),
    ensures
        less(a, c),
    decreases a.len(),
{
    if a.len() > 0 && b.len() > 0 && c.len() > 0 && a[0] == b[0] && b[0] == c[0] {
        lemma_less_transitive(a.drop_first(), b.drop_first(), c.drop_first());
    }
}

/// Of two different strings, one comes before the other.
pub proof fn lemma_less_total(a: Seq<char>, b: Seq<char>)
    ensures
        less(a, b) || a == b || less(b, a),
    decreases a.len(),
{
    if a.len() == 0 || b.len() == 0 {
        if a.len() == b.len() {
            assert(a =~= b);
        }
    } else if a[0] == b[0] {
        lemma_less_total(a.drop_first(), b.drop_first());
        if a.drop_first() == b.drop_first() {
            assert(a =~= seq![a[0]] + a.drop_first());
            assert(b =~= seq![b[0]] + b.drop_first());
            assert(a == b);
        }
    } else {
        vstd::utf8::char_u32_cast(a[0], a[0] as u32);
        vstd::utf8::char_u32_cast(b[0], b[0] as u32);
    }
}

/// Whether `a` comes strictly before `b`.
pub fn comes_before(a: &str, b: &str) -> (r: bool)
    ensures
        r == less(a@, b@),
{
    let x = chars_of(a);
    let y = chars_of(b);
    let mut i: usize = 0;
    assert(x@.skip(0) =~= x@);
    assert(y@.skip(0) =~= y@);
    while i < x.len() && i < y.len()
        invariant
            x@ == a@,
            y@ == b@,
            i <= x.len(),
            i <= y.len(),
            less(a@, b@) == less(x@.skip(i as int), y@.skip(i as int)),
        decreases x.len() - i,
    {
        let c = x[i];
        let d = y[i];
        if c != d {
            return (c as u32) < (d as u32);
        }
        assert(x@.skip(i as int).drop_first() =~= x@.skip(i as int + 1));
        assert(y@.skip(i as int).drop_first() =~= y@.skip(i as int + 1));
        i += 1;
    }
    i < y.len()
}

/// Whether every string of `names` comes before each one behind it.
pub open spec fn strictly_increasing(names: Seq<Seq<char>>) -> bool {
    forall|i: int, j: int|
        0 <= i < j < names.len() ==> less(#[trigger] names[i], #[trigger] names[j])
}

/// Whether no string of `names` comes before one in front of it.
pub open spec fn nondecreasing(names: Seq<Seq<char>>) -> bool {
    forall|i: int, j: int|
        0 <= i < j < names.len() ==> !less(#[trigger] names[j], #[trigger] names[i])
}

/// Where `key` belongs in `keys`: the number of keys that come before it.
fn place(keys: &Vec<String>, key: &str) -> (r: usize)
    requires
        strictly_increasing(deep(keys@)),
    ensures
        r <= keys.len(),
        forall|i: int| 0 <= i < r ==> less(#[trigger] deep(keys@)[i], key@),
        forall|i: int| r <= i < keys.len() ==> !less(#[trigger] deep(keys@)[i], key@),
{
    let mut i: usize = 0;
    while i < keys.len()
        invariant
            i <= keys.len(),
            strictly_increasing(deep(keys@)),
            forall|j: int| 0 <= j < i ==> less(#[trigger] deep(keys@)[j], key@),
        decreases keys.len() - i,
    {
        if !comes_before(keys[i].as_str(), key) {
            proof {
                let views = deep(keys@);
                assert forall|j: int| i <= j < keys.len() implies !less(
                    #[trigger] views[j],
                    key@,
                ) by {
                    if less(views[j], key@) && j > i {
                        lemma_less_transitive(views[i as int], views[j], key@);
                    }
                }
            }
            return i;
        }
        assert(deep(keys@)[i as int] == keys@[i as int]@);
        i += 1;
    }
    i
}

// ---------------------------------------------------------------------------
// Sets
// ---------------------------------------------------------------------------

/// A set of strings, walked in order.
#[derive(Debug, PartialEq, Eq)]
pub struct NameSet {
    items: Vec<String>,
}

impl NameSet {
    #[verifier::type_invariant]
    spec fn in_order(self) -> bool {
        strictly_increasing(deep(self.items@))
    }

    /// The members, in order.
    pub closed spec fn members(&self) -> Seq<Seq<char>> {
        deep(self.items@)
    }

    pub open spec fn view(&self) -> Set<Seq<char>> {
        self.members().to_set()
    }

    /// The empty set.
    pub fn new() -> (r: NameSet)
        ensures
            r@ == Set::<Seq<char>>::empty(),
            r.members() == Seq::<Seq<char>>::empty(),
    {
        let r = NameSet { items: Vec::new() };
        assert(r.members() =~= Seq::<Seq<char>>::empty());
        assert(r@ =~= Set::<Seq<char>>::empty());
        r
    }

    /// The members are in order and none occurs twice.
    pub fn len(&self) -> (n: usize)
        ensures
            n == self.members().len(),
            strictly_increasing(self.members()),
    {
        proof {
            use_type_invariant(self);
        }
        self.items.len()
    }

    pub fn is_empty(&self) -> (r: bool)
        ensures
            r == (self@ == Set::<Seq<char>>::empty()),
            r == (self.members().len() == 0),
    {
        let r = self.items.len() == 0;
        proof {
            if r {
                assert(self@ =~= Set::<Seq<char>>::empty());
            } else {
                assert(self@.contains(self.members()[0]));
            }
        }
        r
    }

    /// The member at a position.
    pub fn at(&self, i: usize) -> (r: &String)
        requires
            i < self.members().len(),
        ensures
            r@ == self.members()[i as int],
    {
        &self.items[i]
    }

    pub fn contains(&self, name: &str) -> (r: bool)
        ensures
            r == self@.contains(name@),
    {
        crate::text::list_contains(&self.items, name)
    }

    /// Put a string into the set.
    pub fn insert(&mut self, name: String)
        ensures
            final(self)@ == old(self)@.insert(name@),
            strictly_increasing(final(self).members()),
    {
        proof {
            use_type_invariant(&*self);
        }
        let mut items: Vec<String> = Vec::new();
        std::mem::swap(&mut items, &mut self.items);
        let ghost before = deep(items@);
        let at = place(&items, name.as_str());
        if at < items.len() && crate::text::same(items[at].as_str(), name.as_str()) {
            proof {
                assert(before[at as int] == name@);
                assert(before.to_set().insert(name@) =~= before.to_set());
            }
        } else {
            let ghost shown = name@;
            items.insert(at, name);
            proof {
                let after = deep(items@);
                assert(after =~= before.insert(at as int, shown));
                assert forall|i: int, j: int| 0 <= i < j < after.len() implies less(
                    #[trigger] after[i],
                    #[trigger] after[j],
                ) by {
                    if i < at && j == at {
                        assert(less(before[i], shown));
                    } else if i == at {
                        lemma_less_total(before[j - 1], shown);
                        assert(!less(before[j - 1], shown));
                        if before[j - 1] == shown {
                            if j - 1 > at {
                                assert(less(before[at as int], before[j - 1]));
                                assert(!less(before[at as int], shown));
                            }
                        }
                    } else if i > at {
                        assert(less(before[i - 1], before[j - 1]));
                    } else if j > at {
                        assert(less(before[i], before[j - 1]));
                    } else {
                        assert(less(before[i], before[j]));
                    }
                }
                assert(after[at as int] == shown);
                assert forall|s: Seq<char>| after.contains(s) <==> (before.contains(s) || s
                    == shown) by {
                    if before.contains(s) {
                        let k = choose|k: int| 0 <= k < before.len() && before[k] == s;
                        if k < at {
                            assert(after[k] == s);
                        } else {
                            assert(after[k + 1] == s);
                        }
                    }
                    if after.contains(s) {
                        let k = choose|k: int| 0 <= k < after.len() && after[k] == s;
                        if k < at {
                            assert(before[k] == s);
                        } else if k > at {
                            assert(before[k - 1] == s);
                        }
                    }
                }
                assert(after.to_set() =~= before.to_set().insert(shown));
            }
        }
        self.items = items;
    }

    /// A copy of the set.
    pub fn copied(&self) -> (r: NameSet)
        ensures
            r.members() == self.members(),
    {
        proof {
            use_type_invariant(self);
        }
        NameSet { items: crate::text::clone_strings(&self.items) }
    }
}

impl Clone for NameSet {
    fn clone(&self) -> (r: NameSet)
        ensures
            r.members() == self.members(),
    {
        self.copied()
    }
}

// ---------------------------------------------------------------------------
// Maps
// ---------------------------------------------------------------------------

/// A map from strings, walked in the order of its keys.
#[derive(Debug)]
pub struct NameMap<V> {
    keys: Vec<String>,
    values: Vec<V>,
}

impl<V> NameMap<V> {
    #[verifier::type_invariant]
    pub closed spec fn in_order(self) -> bool {
        &&& strictly_increasing(deep(self.keys@))
        &&& self.keys@.len() == self.values@.len()
    }

    /// The keys, in order.
    pub closed spec fn keys(&self) -> Seq<Seq<char>> {
        deep(self.keys@)
    }

    /// The values, in the order of their keys.
    pub closed spec fn values(&self) -> Seq<V> {
        self.values@
    }

    /// Whether some entry has this key.
    pub open spec fn has(&self, key: Seq<char>) -> bool {
        self.keys().contains(key)
    }

    /// The value of the entry with this key.
    pub open spec fn value(&self, key: Seq<char>) -> V {
        self.values()[self.keys().index_of(key)]
    }

    pub open spec fn view(&self) -> Map<Seq<char>, V> {
        Map::new(|key: Seq<char>| self.has(key), |key: Seq<char>| self.value(key))
    }

    /// What holds of every map: keys in order, one value each.
    pub open spec fn well_formed(&self) -> bool {
        &&& strictly_increasing(self.keys())
        &&& self.keys().len() == self.values().len()
    }

    /// The empty map.
    pub fn new() -> (r: NameMap<V>)
        ensures
            r.keys() == Seq::<Seq<char>>::empty(),
            r.values() == Seq::<V>::empty(),
            r@ == Map::<Seq<char>, V>::empty(),
    {
        let r: NameMap<V> = NameMap { keys: Vec::new(), values: Vec::new() };
        assert(r.keys() =~= Seq::<Seq<char>>::empty());
        assert(r@ =~= Map::<Seq<char>, V>::empty());
        r
    }

    /// How many entries there are.
    pub fn len(&self) -> (n: usize)
        ensures
            n == self.keys().len(),
            self.well_formed(),
    {
        proof {
            use_type_invariant(self);
        }
        self.keys.len()
    }

    /// The key at a position.
    pub fn key_at(&self, i: usize) -> (r: &String)
        requires
            i < self.keys().len(),
        ensures
            r@ == self.keys()[i as int],
    {
        &self.keys[i]
    }

    /// The value at a position.
    pub fn value_at(&self, i: usize) -> (r: &V)
        requires
            i < self.keys().len(),
        ensures
            *r == self.values()[i as int],
            self.well_formed(),
    {
        proof {
            use_type_invariant(self);
        }
        &self.values[i]
    }

    /// Where a key stands.
    pub fn position(&self, key: &str) -> (r: Option<usize>)
        ensures
            self.well_formed(),
            match r {
                Some(i) => i < self.keys().len() && self.keys()[i as int] == key@ && self.has(key@)
                    && self.keys().index_of(key@) == i,
                None => !self.has(key@),
            },
    {
        proof {
            use_type_invariant(self);
        }
        let mut i: usize = 0;
        while i < self.keys.len()
            invariant
                i <= self.keys@.len(),
                strictly_increasing(deep(self.keys@)),
                self.keys@.len() == self.values@.len(),
                forall|j: int| 0 <= j < i ==> self.keys()[j] != key@,
            decreases self.keys.len() - i,
        {
            if crate::text::same(self.keys[i].as_str(), key) {
                proof {
                    let views = self.keys();
                    assert(views[i as int] == key@);
                    let k = views.index_of(key@);
                    assert(views[k] == key@);
                    lemma_less_irreflexive(key@);
                    if k < i {
                        assert(less(views[k], views[i as int]));
                    } else if k > i {
                        assert(less(views[i as int], views[k]));
                    }
                }
                return Some(i);
            }
            assert(self.keys()[i as int] == self.keys@[i as int]@);
            i += 1;
        }
        None
    }

    /// The value under a key.
    pub fn get(&self, key: &str) -> (r: Option<&V>)
        ensures
            match r {
                Some(v) => self.has(key@) && *v == self.value(key@) && self@.dom().contains(key@)
                    && *v == self@[key@],
                None => !self.has(key@) && !self@.dom().contains(key@),
            },
    {
        match self.position(key) {
            Some(i) => Some(self.value_at(i)),
            None => None,
        }
    }

    /// Take the value under a key out of the map.
    pub fn remove(&mut self, key: &str) -> (r: Option<V>)
        ensures
            final(self).well_formed(),
            match r {
                Some(v) => old(self).has(key@) && v == old(self).value(key@) && final(self)@
                    == old(self)@.remove(key@),
                None => !old(self).has(key@) && final(self)@ == old(self)@ && final(self).keys()
                    == old(self).keys(),
            },
    {
        proof {
            use_type_invariant(&*self);
        }
        let spot = self.position(key);
        let ghost was = self@;
        let ghost before = self.keys();
        let ghost held = self.values();
        match spot {
            None => None,
            Some(i) => {
                let mut whole: NameMap<V> = NameMap { keys: Vec::new(), values: Vec::new() };
                std::mem::swap(&mut whole, self);
                let NameMap { keys: mut keys, values: mut values } = whole;
                keys.remove(i);
                let value = values.remove(i);
                proof {
                    let after = deep(keys@);
                    assert(after =~= before.remove(i as int));
                    assert forall|a: int, b: int| 0 <= a < b < after.len() implies less(
                        #[trigger] after[a],
                        #[trigger] after[b],
                    ) by {
                        let x = if a < i {
                            a
                        } else {
                            a + 1
                        };
                        let y = if b < i {
                            b
                        } else {
                            b + 1
                        };
                        assert(less(before[x], before[y]));
                    }
                }
                *self = NameMap { keys, values };
                proof {
                    let after = self.keys();
                    assert(after =~= before.remove(i as int));
                    assert forall|k: Seq<char>|
                        self.has(k) <==> (before.contains(k) && k != key@) by {
                        if before.contains(k) && k != key@ {
                            let n = choose|n: int| 0 <= n < before.len() && before[n] == k;
                            if n < i {
                                assert(after[n] == k);
                            } else {
                                assert(after[n - 1] == k);
                            }
                        }
                        if after.contains(k) {
                            let n = choose|n: int| 0 <= n < after.len() && after[n] == k;
                            let m = if n < i {
                                n
                            } else {
                                n + 1
                            };
                            assert(before[m] == k);
                            lemma_position(before, m);
                            lemma_position(before, i as int);
                        }
                    }
                    assert forall|k: Seq<char>| self.has(k) implies self@[k] == was.remove(
                        key@,
                    )[k] by {
                        lemma_index_of(after, k);
                        let n = after.index_of(k);
                        let m = if n < i {
                            n
                        } else {
                            n + 1
                        };
                        assert(before[m] == k);
                        lemma_position(before, m);
                    }
                    assert(self@ =~= was.remove(key@));
                }
                Some(value)
            },
        }
    }

    /// Put a value under a key, in place of the one that was there.
    pub fn insert(&mut self, key: String, value: V)
        ensures
            final(self)@ == old(self)@.insert(key@, value),
            final(self).well_formed(),
            old(self).has(key@) ==> final(self).keys() == old(self).keys(),
    {
        proof {
            use_type_invariant(&*self);
        }
        let spot = self.position(key.as_str());
        let ghost was = self@;
        let ghost before = self.keys();
        let ghost held = self.values();
        let mut whole: NameMap<V> = NameMap { keys: Vec::new(), values: Vec::new() };
        std::mem::swap(&mut whole, self);
        let NameMap { keys: mut keys, values: mut values } = whole;
        match spot {
            Some(i) => {
                values.set(i, value);
                *self = NameMap { keys, values };
                proof {
                    assert forall|k: Seq<char>| self.has(k) implies self@[k] == was.insert(
                        key@,
                        value,
                    )[k] by {
                        lemma_index_of(before, k);
                        lemma_index_of(before, key@);
                    }
                    assert(was.dom().contains(key@));
                    assert(self@ =~= was.insert(key@, value));
                }
            },
            None => {
                let at = place(&keys, key.as_str());
                let ghost shown = key@;
                keys.insert(at, key);
                values.insert(at, value);
                proof {
                    let after = deep(keys@);
                    assert(after =~= before.insert(at as int, shown));
                    assert forall|i: int, j: int| 0 <= i < j < after.len() implies less(
                        #[trigger] after[i],
                        #[trigger] after[j],
                    ) by {
                        if i < at && j == at {
                            assert(less(before[i], shown));
                        } else if i == at {
                            lemma_less_total(before[j - 1], shown);
                            assert(!less(before[j - 1], shown));
                            assert(before.contains(before[j - 1]));
                        } else if i > at {
                            assert(less(before[i - 1], before[j - 1]));
                        } else if j > at {
                            assert(less(before[i], before[j - 1]));
                        } else {
                            assert(less(before[i], before[j]));
                        }
                    }
                }
                *self = NameMap { keys, values };
                proof {
                    let after = self.keys();
                    assert(after =~= before.insert(at as int, shown));
                    assert(after[at as int] == shown);
                    assert forall|k: Seq<char>|
                        self.has(k) <==> (before.contains(k) || k == shown) by {
                        if before.contains(k) {
                            let n = choose|n: int| 0 <= n < before.len() && before[n] == k;
                            if n < at {
                                assert(after[n] == k);
                            } else {
                                assert(after[n + 1] == k);
                            }
                        }
                        if after.contains(k) {
                            let n = choose|n: int| 0 <= n < after.len() && after[n] == k;
                            if n < at {
                                assert(before[n] == k);
                            } else if n > at {
                                assert(before[n - 1] == k);
                            }
                        }
                    }
                    assert forall|k: Seq<char>| self.has(k) implies self@[k] == was.insert(
                        shown,
                        value,
                    )[k] by {
                        lemma_index_of(after, k);
                        let n = after.index_of(k);
                        if n != at {
                            let m = if n < at {
                                n
                            } else {
                                n - 1
                            };
                            assert(before[m] == k);
                            lemma_position(before, m);
                        }
                    }
                    assert(self@ =~= was.insert(shown, value));
                }
            },
        }
    }
}

/// The entries of a map in the order of their keys, the values by their deep
/// views.
pub open spec fn listed<V: DeepView>(m: NameMap<V>) -> Seq<(Seq<char>, V::V)> {
    Seq::new(m.keys().len(), |i: int| (m.keys()[i], m.values()[i].deep_view()))
}

/// What the type keeps of a map is what holds of every map.
pub proof fn lemma_in_order<V>(m: NameMap<V>)
    requires
        m.in_order(),
    ensures
        m.well_formed(),
{
}

/// A map as the deep views of its values.
pub open spec fn deep_map<V: DeepView>(m: NameMap<V>) -> Map<Seq<char>, V::V> {
    Map::new(|k: Seq<char>| m.has(k), |k: Seq<char>| m.value(k).deep_view())
}

pub proof fn lemma_deep_map_insert<V: DeepView>(
    before: NameMap<V>,
    after: NameMap<V>,
    key: Seq<char>,
    value: V,
)
    requires
        after@ == before@.insert(key, value),
    ensures
        deep_map(after) == deep_map(before).insert(key, value.deep_view()),
{
    assert forall|k: Seq<char>| after.has(k) <==> (before.has(k) || k == key) by {
        assert(after@.dom().contains(k) == after.has(k));
        assert(before@.dom().contains(k) == before.has(k));
        assert(after@.dom() == before@.insert(key, value).dom());
        assert(before@.insert(key, value).dom() =~= before@.dom().insert(key));
    }
    assert forall|k: Seq<char>| after.has(k) implies #[trigger] after.value(k)
        == before@.insert(key, value)[k] by {
        assert(after@[k] == before@.insert(key, value)[k]);
    }
    assert(deep_map(after) =~= deep_map(before).insert(key, value.deep_view()));
}

pub proof fn lemma_deep_map_remove<V: DeepView>(
    before: NameMap<V>,
    after: NameMap<V>,
    key: Seq<char>,
)
    requires
        after@ == before@.remove(key),
    ensures
        deep_map(after) == deep_map(before).remove(key),
{
    assert forall|k: Seq<char>| after.has(k) <==> (before.has(k) && k != key) by {
        assert(after@.dom().contains(k) == after.has(k));
        assert(before@.dom().contains(k) == before.has(k));
        assert(before@.remove(key).dom() =~= before@.dom().remove(key));
    }
    assert forall|k: Seq<char>| after.has(k) implies #[trigger] after.value(k) == before.value(
        k,
    ) by {
        assert(k != key && before.has(k));
        assert(after@[k] == before@.remove(key)[k]);
        assert(before@.remove(key)[k] == before@[k]);
        assert(after@[k] == after.value(k));
        assert(before@[k] == before.value(k));
    }
    assert(deep_map(after) =~= deep_map(before).remove(key));
}

/// What is listed under a key is what the map holds there.
pub proof fn lemma_listed<V: DeepView>(m: NameMap<V>, key: Seq<char>)
    requires
        m.well_formed(),
    ensures
        lookup(listed(m), key) == (if m.has(key) {
            Some(deep_map(m)[key])
        } else {
            None
        }),
        deep_map(m).dom().contains(key) == m.has(key),
{
    let entries = listed(m);
    if m.has(key) {
        let i = m.keys().index_of(key);
        lemma_index_of(m.keys(), key);
        assert forall|j: int| 0 <= j < entries.len() && j != i implies (#[trigger] entries[j]).0
            != entries[i].0 by {
            lemma_position(m.keys(), j);
            lemma_position(m.keys(), i);
        }
        lemma_lookup(entries, i);
    } else {
        assert forall|j: int| 0 <= j < entries.len() implies (#[trigger] entries[j]).0 != key by {
            assert(m.keys().contains(m.keys()[j]));
        }
        lemma_lookup_none(entries, key);
    }
}

/// The value listed under a key.
pub open spec fn lookup<T>(entries: Seq<(Seq<char>, T)>, key: Seq<char>) -> Option<T>
    decreases entries.len(),
{
    if entries.len() == 0 {
        None
    } else if entries.last().0 == key {
        Some(entries.last().1)
    } else {
        lookup(entries.drop_last(), key)
    }
}

/// A member of a strictly increasing list stands at the position that
/// `index_of` finds.
pub proof fn lemma_position(names: Seq<Seq<char>>, i: int)
    requires
        strictly_increasing(names),
        0 <= i < names.len(),
    ensures
        names.index_of(names[i]) == i,
        names.contains(names[i]),
{
    let k = names.index_of(names[i]);
    assert(names[i] == names[i]);
    assert(0 <= k < names.len() && names[k] == names[i]);
    lemma_less_irreflexive(names[i]);
    if k < i {
        assert(less(names[k], names[i]));
    } else if k > i {
        assert(less(names[i], names[k]));
    }
}

/// What is listed first under a key that is listed once is what a lookup finds.
pub proof fn lemma_lookup<T>(entries: Seq<(Seq<char>, T)>, i: int)
    requires
        0 <= i < entries.len(),
        forall|j: int| 0 <= j < entries.len() && j != i ==> (#[trigger] entries[j]).0 != entries[i].0,
    ensures
        lookup(entries, entries[i].0) == Some(entries[i].1),
    decreases entries.len(),
{
    if i < entries.len() - 1 {
        assert(entries.last().0 != entries[i].0);
        assert(entries.drop_last()[i] == entries[i]);
        lemma_lookup(entries.drop_last(), i);
    }
}

/// A key that nothing is listed under is not found.
pub proof fn lemma_lookup_none<T>(entries: Seq<(Seq<char>, T)>, key: Seq<char>)
    requires
        forall|j: int| 0 <= j < entries.len() ==> (#[trigger] entries[j]).0 != key,
    ensures
        lookup(entries, key) is None,
    decreases entries.len(),
{
    if entries.len() > 0 {
        lemma_lookup_none(entries.drop_last(), key);
    }
}

/// Looking a key up in a map is looking it up in its list.
pub fn find<'a, V: DeepView>(m: &'a NameMap<V>, key: &str) -> (r: Option<&'a V>)
    ensures
        match r {
            Some(v) => lookup(listed(*m), key@) == Some(v.deep_view()) && m.has(key@) && *v
                == m.value(key@),
            None => lookup(listed(*m), key@) is None && !m.has(key@),
        },
{
    match m.position(key) {
        Some(i) => {
            proof {
                let entries = listed(*m);
                assert forall|j: int| 0 <= j < entries.len() && j != i implies (
                #[trigger] entries[j]).0 != entries[i as int].0 by {
                    lemma_position(m.keys(), j);
                    lemma_position(m.keys(), i as int);
                }
                lemma_lookup(entries, i as int);
            }
            Some(m.value_at(i))
        },
        None => {
            proof {
                let entries = listed(*m);
                assert forall|j: int| 0 <= j < entries.len() implies (#[trigger] entries[j]).0
                    != key@ by {
                    assert(m.keys().contains(m.keys()[j]));
                }
                lemma_lookup_none(entries, key@);
            }
            None
        },
    }
}

/// Two strictly increasing lists of the same strings are the same list.
pub proof fn lemma_ordered_lists_agree(a: Seq<Seq<char>>, b: Seq<Seq<char>>)
    requires
        strictly_increasing(a),
        strictly_increasing(b),
        forall|s: Seq<char>| a.contains(s) <==> b.contains(s),
    ensures
        a == b,
    decreases a.len(),
{
    if a.len() == 0 {
        if b.len() > 0 {
            assert(b.contains(b[0]));
        }
        assert(a =~= b);
    } else {
        assert(a.contains(a[a.len() - 1]));
        let x = a.last();
        let y = b.last();
        let k = b.index_of(x);
        assert(b[k] == x);
        assert(b.contains(b[b.len() - 1]));
        let j = a.index_of(y);
        assert(a[j] == y);
        if k < b.len() - 1 {
            assert(less(b[k], b[b.len() - 1]));
            if j < a.len() - 1 {
                assert(less(a[j], a[a.len() - 1]));
                lemma_less_transitive(x, y, x);
            }
            lemma_less_irreflexive(x);
        }
        assert(x == y);
        let p = a.drop_last();
        let q = b.drop_last();
        assert forall|i: int, j: int| 0 <= i < j < p.len() implies less(
            #[trigger] p[i],
            #[trigger] p[j],
        ) by {
            assert(less(a[i], a[j]));
        }
        assert forall|i: int, j: int| 0 <= i < j < q.len() implies less(
            #[trigger] q[i],
            #[trigger] q[j],
        ) by {
            assert(less(b[i], b[j]));
        }
        assert forall|s: Seq<char>| p.contains(s) <==> q.contains(s) by {
            lemma_less_irreflexive(x);
            if p.contains(s) {
                let i = p.index_of(s);
                assert(a[i] == s);
                assert(less(a[i], a[a.len() - 1]));
                assert(b.contains(s));
                let m = b.index_of(s);
                assert(m < b.len() - 1);
                assert(q[m] == s);
            }
            if q.contains(s) {
                let i = q.index_of(s);
                assert(b[i] == s);
                assert(less(b[i], b[b.len() - 1]));
                assert(a.contains(s));
                let m = a.index_of(s);
                assert(m < a.len() - 1);
                assert(p[m] == s);
            }
        }
        lemma_ordered_lists_agree(p, q);
        assert(a =~= p.push(x));
        assert(b =~= q.push(y));
    }
}

proof fn lemma_index_of(names: Seq<Seq<char>>, name: Seq<char>)
    requires
        names.contains(name),
    ensures
        0 <= names.index_of(name) < names.len(),
        names[names.index_of(name)] == name,
{
}

// ---------------------------------------------------------------------------
// Sorting
// ---------------------------------------------------------------------------

/// Something that is put in order by a text.
pub trait Keyed: DeepView {
    /// The text a value is ordered by.
    spec fn key_of(v: Self::V) -> Seq<char>;

    fn key(&self) -> (r: String)
        ensures
            r@ == Self::key_of(self.deep_view()),
    ;
}

impl Keyed for String {
    open spec fn key_of(v: Seq<char>) -> Seq<char> {
        v
    }

    fn key(&self) -> (r: String) {
        self.clone()
    }
}

/// `items` with `item` put behind the last one that does not come after it.
pub open spec fn placed<T: Keyed>(items: Seq<T::V>, item: T::V) -> Seq<T::V>
    decreases items.len(),
{
    if items.len() > 0 && less(T::key_of(item), T::key_of(items.last())) {
        placed::<T>(items.drop_last(), item).push(items.last())
    } else {
        items.push(item)
    }
}

/// `items` in the order of their texts; those with the same text stay in the
/// order they had.
pub open spec fn sorted<T: Keyed>(items: Seq<T::V>) -> Seq<T::V>
    decreases items.len(),
{
    if items.len() == 0 {
        items
    } else {
        placed::<T>(sorted::<T>(items.drop_last()), items.last())
    }
}

/// The texts of `items`.
pub open spec fn keys_of<T: Keyed>(items: Seq<T::V>) -> Seq<Seq<char>> {
    Seq::new(items.len(), |i: int| T::key_of(items[i]))
}

proof fn lemma_placed<T: Keyed>(items: Seq<T::V>, item: T::V)
    requires
        nondecreasing(keys_of::<T>(items)),
    ensures
        nondecreasing(keys_of::<T>(placed::<T>(items, item))),
        placed::<T>(items, item).to_multiset() == items.to_multiset().insert(item),
        forall|k: Seq<char>|
            !less(k, T::key_of(item)) && (forall|j: int|
                0 <= j < items.len() ==> !less(k, T::key_of(#[trigger] items[j]))) ==> (forall|j: int|
                0 <= j < placed::<T>(items, item).len() ==> !less(
                    k,
                    T::key_of(#[trigger] placed::<T>(items, item)[j]),
                )),
    decreases items.len(),
{
    broadcast use vstd::seq_lib::group_to_multiset_ensures;

    let out = placed::<T>(items, item);
    let keys = keys_of::<T>(items);
    if items.len() > 0 && less(T::key_of(item), T::key_of(items.last())) {
        let rest = items.drop_last();
        assert forall|i: int, j: int| 0 <= i < j < rest.len() implies !less(
            #[trigger] keys_of::<T>(rest)[j],
            #[trigger] keys_of::<T>(rest)[i],
        ) by {
            assert(!less(keys[j], keys[i]));
        }
        lemma_placed::<T>(rest, item);
        let inner = placed::<T>(rest, item);
        let last = T::key_of(items.last());
        assert forall|j: int| 0 <= j < inner.len() implies !less(
            last,
            T::key_of(#[trigger] inner[j]),
        ) by {
            assert(!less(last, T::key_of(item))) by {
                if less(last, T::key_of(item)) {
                    lemma_less_transitive(last, T::key_of(item), last);
                    lemma_less_irreflexive(last);
                }
            }
            assert forall|n: int| 0 <= n < rest.len() implies !less(
                last,
                T::key_of(#[trigger] rest[n]),
            ) by {
                assert(!less(keys[items.len() - 1], keys[n]));
            }
        }
        assert forall|i: int, j: int| 0 <= i < j < out.len() implies !less(
            #[trigger] keys_of::<T>(out)[j],
            #[trigger] keys_of::<T>(out)[i],
        ) by {
            if j < inner.len() {
                assert(!less(keys_of::<T>(inner)[j], keys_of::<T>(inner)[i]));
            } else {
                assert(inner[i] == out[i]);
            }
        }
        assert(items =~= rest.push(items.last()));
        assert(out.to_multiset() =~= items.to_multiset().insert(item));
        assert forall|k: Seq<char>|
            !less(k, T::key_of(item)) && (forall|j: int|
                0 <= j < items.len() ==> !less(k, T::key_of(#[trigger] items[j]))) implies (
        forall|j: int|
            0 <= j < out.len() ==> !less(k, T::key_of(#[trigger] out[j]))) by {
            assert forall|j: int| 0 <= j < rest.len() implies !less(
                k,
                T::key_of(#[trigger] rest[j]),
            ) by {
                assert(rest[j] == items[j]);
            }
            assert forall|j: int| 0 <= j < out.len() implies !less(
                k,
                T::key_of(#[trigger] out[j]),
            ) by {
                if j < inner.len() {
                    assert(out[j] == inner[j]);
                } else {
                    assert(out[j] == items[items.len() - 1]);
                }
            }
        }
    } else {
        assert forall|i: int, j: int| 0 <= i < j < out.len() implies !less(
            #[trigger] keys_of::<T>(out)[j],
            #[trigger] keys_of::<T>(out)[i],
        ) by {
            if j < items.len() {
                assert(!less(keys[j], keys[i]));
            } else if i == items.len() - 1 {
            } else {
                let a = T::key_of(item);
                let b = keys[items.len() - 1];
                assert(!less(b, keys[i]));
                if less(a, keys[i]) {
                    lemma_less_total(b, keys[i]);
                    if less(keys[i], b) {
                        lemma_less_transitive(a, keys[i], b);
                    }
                }
            }
        }
    }
}

/// Sorting keeps every item and puts their texts in order.
pub proof fn sorting_orders_and_keeps_everything<T: Keyed>(items: Seq<T::V>)
    ensures
        nondecreasing(keys_of::<T>(sorted::<T>(items))),
        sorted::<T>(items).to_multiset() == items.to_multiset(),
    decreases items.len(),
{
    broadcast use vstd::seq_lib::group_to_multiset_ensures;

    if items.len() > 0 {
        sorting_orders_and_keeps_everything::<T>(items.drop_last());
        lemma_placed::<T>(sorted::<T>(items.drop_last()), items.last());
        assert(items =~= items.drop_last().push(items.last()));
    }
}

proof fn lemma_placed_at<T: Keyed>(items: Seq<T::V>, item: T::V, at: int)
    requires
        0 <= at <= items.len(),
        at > 0 ==> !less(T::key_of(item), T::key_of(items[at - 1])),
        forall|j: int| at <= j < items.len() ==> less(T::key_of(item), T::key_of(#[trigger] items[j])),
    ensures
        placed::<T>(items, item) == items.insert(at, item),
    decreases items.len(),
{
    if at < items.len() {
        assert(less(T::key_of(item), T::key_of(items[items.len() - 1])));
        let rest = items.drop_last();
        lemma_placed_at::<T>(rest, item, at);
        assert(rest.insert(at, item).push(items.last()) =~= items.insert(at, item));
    } else {
        assert(items.push(item) =~= items.insert(at, item));
    }
}

/// Put items in the order of their texts; those with the same text stay in the
/// order they had.
pub fn sort<T: Keyed>(items: Vec<T>) -> (out: Vec<T>)
    ensures
        deep(out@) == sorted::<T>(deep(items@)),
        out.len() == items.len(),
{
    let ghost views = deep(items@);
    let mut items = items;
    let mut pending: Vec<T> = Vec::new();
    let total: usize = items.len();
    // Turned round, so that the items come off the end in their order.
    let ghost n = items@.len() as int;
    while items.len() > 0
        invariant
            items@.len() + pending@.len() == n,
            n == views.len(),
            n == total,
            deep(items@) == views.take(items@.len() as int),
            forall|i: int|
                0 <= i < pending@.len() ==> (#[trigger] pending@[i]).deep_view() == views[n - 1 - i],
        decreases items.len(),
    {
        let ghost held = items@;
        let item = items.pop().unwrap();
        proof {
            assert(item.deep_view() == deep(held)[held.len() - 1]);
            assert(deep(items@) =~= deep(held).take(items@.len() as int));
            assert(views.take(items@.len() as int) =~= views.take(held.len() as int).take(
                items@.len() as int,
            ));
        }
        pending.push(item);
    }
    let mut out: Vec<T> = Vec::new();
    assert(deep(out@) =~= sorted::<T>(views.take(0)));
    while pending.len() > 0
        invariant
            n == views.len(),
            n == total,
            out@.len() + pending@.len() == n,
            forall|i: int|
                0 <= i < pending@.len() ==> (#[trigger] pending@[i]).deep_view() == views[n - 1 - i],
            deep(out@) == sorted::<T>(views.take(out@.len() as int)),
        decreases pending.len(),
    {
        let ghost done = out@.len() as int;
        let item = pending.pop().unwrap();
        assert(item.deep_view() == views[done]);
        let key = item.key();
        let mut at: usize = out.len();
        while at > 0 && comes_before(key.as_str(), out[at - 1].key().as_str())
            invariant
                at <= out.len(),
                key@ == T::key_of(item.deep_view()),
                forall|j: int|
                    at <= j < out@.len() ==> less(
                        T::key_of(item.deep_view()),
                        T::key_of(#[trigger] deep(out@)[j]),
                    ),
            decreases at,
        {
            at -= 1;
        }
        let ghost shown = deep(out@);
        proof {
            lemma_placed_at::<T>(shown, item.deep_view(), at as int);
            assert(views.take(done + 1).drop_last() =~= views.take(done));
        }
        let ghost before = out@;
        out.insert(at, item);
        assert(deep(out@) =~= shown.insert(at as int, item.deep_view()));
    }
    assert(views.take(n) =~= views);
    out
}

/// `items` without those that repeat the one in front of them.
pub open spec fn without_repeats(items: Seq<Seq<char>>) -> Seq<Seq<char>>
    decreases items.len(),
{
    if items.len() <= 1 {
        items
    } else if items.last() == items[items.len() - 2] {
        without_repeats(items.drop_last())
    } else {
        without_repeats(items.drop_last()).push(items.last())
    }
}

/// Put strings in order, each once.
pub fn distinct(items: Vec<String>) -> (out: Vec<String>)
    ensures
        deep(out@) == without_repeats(sorted::<String>(deep(items@))),
{
    broadcast use crate::text::group_deep;

    let all = sort(items);
    let ghost views = deep(all@);
    let mut out: Vec<String> = Vec::new();
    let mut i: usize = 0;
    assert(views.take(0) =~= Seq::empty());
    while i < all.len()
        invariant
            views == deep(all@),
            i <= all.len(),
            deep(out@) == without_repeats(views.take(i as int)),
        decreases all.len() - i,
    {
        let ghost now = views.take(i as int + 1);
        assert(now.drop_last() =~= views.take(i as int));
        proof {
            if i == 0 {
                assert(now =~= seq![views[0]]);
                assert(without_repeats(views.take(0)).push(views[0]) =~= seq![views[0]]);
            }
        }
        if i == 0 || !crate::text::same(all[i].as_str(), all[i - 1].as_str()) {
            out.push(all[i].clone());
        }
        i += 1;
    }
    assert(views.take(views.len() as int) =~= views);
    out
}

proof fn lemma_without_repeats(items: Seq<Seq<char>>)
    requires
        nondecreasing(items),
    ensures
        ({
            let out = without_repeats(items);
            &&& strictly_increasing(out)
            &&& forall|s: Seq<char>| #[trigger] out.contains(s) <==> items.contains(s)
            &&& items.len() > 0 ==> out.len() > 0 && out.last() == items.last()
        }),
    decreases items.len(),
{
    let out = without_repeats(items);
    if items.len() > 1 {
        let rest = items.drop_last();
        assert(nondecreasing(rest)) by {
            assert forall|i: int, j: int| 0 <= i < j < rest.len() implies !less(
                #[trigger] rest[j],
                #[trigger] rest[i],
            ) by {
                assert(!less(items[j], items[i]));
            }
        }
        lemma_without_repeats(rest);
        let before = without_repeats(rest);
        let last = items.last();
        let near = items[items.len() - 2];
        assert(rest.last() == near);
        assert forall|s: Seq<char>| #[trigger] out.contains(s) <==> items.contains(s) by {
            if items.contains(s) {
                let i = choose|i: int| 0 <= i < items.len() && items[i] == s;
                if i < rest.len() {
                    assert(rest[i] == s);
                    assert(before.contains(s));
                } else {
                    assert(rest[rest.len() - 1] == near);
                    assert(last == near ==> before.contains(s));
                }
                if before.contains(s) {
                    let k = choose|k: int| 0 <= k < before.len() && before[k] == s;
                    assert(out[k] == s);
                } else {
                    assert(out[out.len() - 1] == s);
                }
            }
            if out.contains(s) {
                let k = choose|k: int| 0 <= k < out.len() && out[k] == s;
                if k < before.len() {
                    assert(before[k] == s);
                    assert(before.contains(s));
                    let i = choose|i: int| 0 <= i < rest.len() && rest[i] == s;
                    assert(items[i] == s);
                } else {
                    assert(items[items.len() - 1] == s);
                }
            }
        }
        if last != near {
            assert(less(near, last)) by {
                assert(!less(items[items.len() - 1], items[items.len() - 2]));
                lemma_less_total(near, last);
            }
            assert forall|i: int, j: int| 0 <= i < j < out.len() implies less(
                #[trigger] out[i],
                #[trigger] out[j],
            ) by {
                if j < before.len() {
                    assert(less(before[i], before[j]));
                } else if i < before.len() - 1 {
                    assert(less(before[i], before[before.len() - 1]));
                    lemma_less_transitive(before[i], near, last);
                }
            }
        }
    }
}

/// What is put in order once holds what was there, each string one time, and
/// every one comes before those behind it.
pub proof fn distinct_strings_come_once_in_order(items: Seq<Seq<char>>)
    ensures
        strictly_increasing(without_repeats(sorted::<String>(items))),
        forall|s: Seq<char>| #[trigger]
            without_repeats(sorted::<String>(items)).contains(s) <==> items.contains(s),
{
    let all: Seq<Seq<char>> = sorted::<String>(items);
    sorting_orders_and_keeps_everything::<String>(items);
    assert(keys_of::<String>(all) =~= all);
    lemma_without_repeats(all);
    all.to_multiset_ensures();
    items.to_multiset_ensures();
    assert forall|s: Seq<char>| #[trigger] without_repeats(all).contains(s) <==> items.contains(
        s,
    ) by {
        assert(all.contains(s) <==> all.to_multiset().count(s) > 0);
        assert(items.contains(s) <==> items.to_multiset().count(s) > 0);
    }
}

/// The items with a given text.
pub open spec fn with_key<T: Keyed>(items: Seq<T::V>, key: Seq<char>) -> Seq<T::V>
    decreases items.len(),
{
    if items.len() == 0 {
        Seq::empty()
    } else if T::key_of(items.last()) == key {
        with_key::<T>(items.drop_last(), key).push(items.last())
    } else {
        with_key::<T>(items.drop_last(), key)
    }
}

proof fn lemma_placed_behind_its_equals<T: Keyed>(items: Seq<T::V>, item: T::V, key: Seq<char>)
    ensures
        with_key::<T>(placed::<T>(items, item), key) == with_key::<T>(items.push(item), key),
    decreases items.len(),
{
    let out = placed::<T>(items, item);
    assert(items.push(item).drop_last() =~= items);
    if items.len() > 0 && less(T::key_of(item), T::key_of(items.last())) {
        let rest = items.drop_last();
        lemma_placed_behind_its_equals::<T>(rest, item, key);
        assert(out.drop_last() =~= placed::<T>(rest, item));
        assert(rest.push(item).drop_last() =~= rest);
        lemma_less_irreflexive(T::key_of(item));
        let mine = T::key_of(item) == key;
        assert(with_key::<T>(items.push(item), key) == if mine {
            with_key::<T>(items, key).push(item)
        } else {
            with_key::<T>(items, key)
        });
        assert(with_key::<T>(rest.push(item), key) == if mine {
            with_key::<T>(rest, key).push(item)
        } else {
            with_key::<T>(rest, key)
        });
        assert(out.last() == items.last());
    }
}

/// Sorting leaves the items with one text in the order they had.
pub proof fn sorting_keeps_the_order_of_equals<T: Keyed>(items: Seq<T::V>, key: Seq<char>)
    ensures
        with_key::<T>(sorted::<T>(items), key) == with_key::<T>(items, key),
    decreases items.len(),
{
    if items.len() > 0 {
        let rest = items.drop_last();
        let inner = sorted::<T>(rest);
        sorting_keeps_the_order_of_equals::<T>(rest, key);
        lemma_placed_behind_its_equals::<T>(inner, items.last(), key);
        assert(inner.push(items.last()).drop_last() =~= inner);
    }
}

} // verus!
