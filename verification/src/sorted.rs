//! Maps and sets whose keys are kept in a strict order, so that walking them
//! always meets the keys in the same, increasing order.

use vstd::prelude::*;

verus! {

/// A type with a strict total order.
pub trait Key: Sized {
    spec fn before(self, other: Self) -> bool;

    proof fn irreflexive(a: Self)
        ensures
            !a.before(a),
    ;

    proof fn transitive(a: Self, b: Self, c: Self)
        requires
            a.before(b),
            b.before(c),
        ensures
            a.before(c),
    ;

    proof fn total(a: Self, b: Self)
        ensures
            a == b || a.before(b) || b.before(a),
    ;

    fn precedes(&self, other: &Self) -> (result: bool)
        ensures
            result == self.before(*other),
    ;
}

impl Key for u64 {
    open spec fn before(self, other: Self) -> bool {
        self < other
    }

    proof fn irreflexive(a: Self) {
    }

    proof fn transitive(a: Self, b: Self, c: Self) {
    }

    proof fn total(a: Self, b: Self) {
    }

    fn precedes(&self, other: &Self) -> (result: bool) {
        *self < *other
    }
}

impl Key for usize {
    open spec fn before(self, other: Self) -> bool {
        self < other
    }

    proof fn irreflexive(a: Self) {
    }

    proof fn transitive(a: Self, b: Self, c: Self) {
    }

    proof fn total(a: Self, b: Self) {
    }

    fn precedes(&self, other: &Self) -> (result: bool) {
        *self < *other
    }
}

/// Pairs are ordered by the first part, then by the second.
impl<A: Key, B: Key> Key for (A, B) {
    open spec fn before(self, other: Self) -> bool {
        self.0.before(other.0) || (self.0 == other.0 && self.1.before(other.1))
    }

    proof fn irreflexive(a: Self) {
        A::irreflexive(a.0);
        B::irreflexive(a.1);
    }

    proof fn transitive(a: Self, b: Self, c: Self) {
        if a.0.before(b.0) {
            if b.0.before(c.0) {
                A::transitive(a.0, b.0, c.0);
            }
        } else if !b.0.before(c.0) {
            B::transitive(a.1, b.1, c.1);
        }
    }

    proof fn total(a: Self, b: Self) {
        A::total(a.0, b.0);
        B::total(a.1, b.1);
    }

    fn precedes(&self, other: &Self) -> (result: bool) {
        if self.0.precedes(&other.0) {
            true
        } else if other.0.precedes(&self.0) {
            proof {
                if self.0 == other.0 {
                    A::irreflexive(self.0);
                }
            }
            false
        } else {
            proof {
                A::total(self.0, other.0);
            }
            self.1.precedes(&other.1)
        }
    }
}

/// Whether two keys are the same.
pub fn same_key<K: Key>(a: &K, b: &K) -> (result: bool)
    ensures
        result == (*a == *b),
{
    proof {
        K::total(*a, *b);
        K::irreflexive(*a);
    }
    !a.precedes(b) && !b.precedes(a)
}

/// The keys stand in strictly increasing order.
pub open spec fn increasing<K: Key>(keys: Seq<K>) -> bool {
    forall|i: int, j: int|
        0 <= i < j < keys.len() ==> (#[trigger] keys[i]).before(#[trigger] keys[j])
}

/// A strictly increasing sequence holds nothing twice.
pub proof fn increasing_has_no_duplicates<K: Key>(keys: Seq<K>)
    requires
        increasing(keys),
    ensures
        keys.no_duplicates(),
{
    assert forall|i: int, j: int| 0 <= i < keys.len() && 0 <= j < keys.len() && i != j implies keys[i]
        != keys[j] by {
        K::irreflexive(keys[i]);
        if i < j {
            assert(keys[i].before(keys[j]));
        } else {
            assert(keys[j].before(keys[i]));
        }
    }
}

/// Two increasing sequences of the same keys are the same sequence.
pub proof fn increasing_sequence_is_unique<K: Key>(a: Seq<K>, b: Seq<K>)
    requires
        increasing(a),
        increasing(b),
        a.to_set() == b.to_set(),
    ensures
        a == b,
    decreases a.len(),
{
    if a.len() == 0 {
        if b.len() > 0 {
            assert(b.to_set().contains(b[0]));
            assert(a.to_set().contains(b[0]));
        }
        assert(a =~= b);
    } else {
        assert(a.to_set().contains(a.last()));
        assert(b.to_set().contains(a.last()));
        assert(b.to_set().contains(b.last()));
        assert(a.to_set().contains(b.last()));
        let i = a.index_of(b.last());
        let j = b.index_of(a.last());
        if a.last() != b.last() {
            assert(a[i].before(a.last()));
            assert(b[j].before(b.last()));
            K::transitive(a.last(), b.last(), a.last());
            K::irreflexive(a.last());
        }
        let x = a.drop_last();
        let y = b.drop_last();
        increasing_has_no_duplicates(a);
        increasing_has_no_duplicates(b);
        assert forall|k: K| x.to_set().contains(k) == y.to_set().contains(k) by {
            if x.contains(k) {
                let p = x.index_of(k);
                assert(a[p] == k);
                assert(a.to_set().contains(k));
                assert(b.contains(k));
                let q = b.index_of(k);
                assert(q != b.len() - 1);
                assert(y[q] == k);
            }
            if y.contains(k) {
                let p = y.index_of(k);
                assert(b[p] == k);
                assert(b.to_set().contains(k));
                assert(a.contains(k));
                let q = a.index_of(k);
                assert(q != a.len() - 1);
                assert(x[q] == k);
            }
        }
        assert(x.to_set() =~= y.to_set());
        increasing_sequence_is_unique(x, y);
        assert(a =~= x.push(a.last()));
        assert(b =~= y.push(b.last()));
    }
}

/// The first place whose key does not come before `key`.
pub fn position<K: Key>(keys: &Vec<K>, key: &K) -> (result: usize)
    requires
        increasing(keys@),
    ensures
        result <= keys.len(),
        forall|i: int| 0 <= i < result ==> (#[trigger] keys[i]).before(*key),
        forall|i: int| result <= i < keys.len() ==> !(#[trigger] keys[i]).before(*key),
        keys@.contains(*key) <==> result < keys.len() && keys[result as int] == *key,
{
    let mut low: usize = 0;
    let mut high: usize = keys.len();
    while low < high
        invariant
            low <= high <= keys.len(),
            increasing(keys@),
            forall|i: int| 0 <= i < low ==> (#[trigger] keys[i]).before(*key),
            forall|i: int| high <= i < keys.len() ==> !(#[trigger] keys[i]).before(*key),
        decreases high - low,
    {
        let middle: usize = low + (high - low) / 2;
        if keys[middle].precedes(key) {
            proof {
                assert forall|i: int| 0 <= i < middle + 1 implies (#[trigger] keys[i]).before(*key) by {
                    if i < middle {
                        K::transitive(keys[i], keys[middle as int], *key);
                    }
                }
            }
            low = middle + 1;
        } else {
            proof {
                assert forall|i: int| middle <= i < keys.len() implies !(#[trigger] keys[i]).before(
                    *key,
                ) by {
                    if i > middle && keys[i].before(*key) {
                        K::transitive(keys[middle as int], keys[i], *key);
                    }
                }
            }
            high = middle;
        }
    }
    proof {
        if keys@.contains(*key) {
            let i = keys@.index_of(*key);
            K::irreflexive(*key);
            assert(keys[i] == *key);
            assert(i >= low);
            if i > low {
                assert(keys[low as int].before(keys[i]));
            }
        }
        if low < keys.len() && keys[low as int] == *key {
            assert(keys@[low as int] == *key);
        }
    }
    low
}

/// Putting a key at its place keeps the order.
pub proof fn insertion_keeps_order<K: Key>(keys: Seq<K>, place: int, key: K)
    requires
        increasing(keys),
        0 <= place <= keys.len(),
        !keys.contains(key),
        forall|i: int| 0 <= i < place ==> (#[trigger] keys[i]).before(key),
        forall|i: int| place <= i < keys.len() ==> !(#[trigger] keys[i]).before(key),
    ensures
        increasing(keys.insert(place, key)),
        keys.insert(place, key).to_set() == keys.to_set().insert(key),
{
    let after = keys.insert(place, key);
    assert forall|i: int, j: int| 0 <= i < j < after.len() implies (#[trigger] after[i]).before(
        #[trigger] after[j],
    ) by {
        let p = if i < place {
            i
        } else {
            i - 1
        };
        let q = if j < place {
            j
        } else {
            j - 1
        };
        if i == place {
            K::total(keys[q], key);
            assert(keys.contains(keys[q]));
        } else if j == place {
        } else {
            assert(keys[p].before(keys[q]));
        }
    }
    assert forall|k: K| after.to_set().contains(k) == keys.to_set().insert(key).contains(k) by {
        if after.contains(k) {
            let i = after.index_of(k);
            if i < place {
                assert(keys[i] == k);
            } else if i > place {
                assert(keys[i - 1] == k);
            }
        }
        if k == key {
            assert(after[place] == key);
        } else if keys.contains(k) {
            let i = keys.index_of(k);
            if i < place {
                assert(after[i] == k);
            } else {
                assert(after[i + 1] == k);
            }
        }
    }
    assert(after.to_set() =~= keys.to_set().insert(key));
}

/// Taking a key out keeps the order.
pub proof fn removal_keeps_order<K: Key>(keys: Seq<K>, place: int)
    requires
        increasing(keys),
        0 <= place < keys.len(),
    ensures
        increasing(keys.remove(place)),
        keys.remove(place).to_set() == keys.to_set().remove(keys[place]),
{
    let after = keys.remove(place);
    assert forall|i: int, j: int| 0 <= i < j < after.len() implies (#[trigger] after[i]).before(
        #[trigger] after[j],
    ) by {
        let p = if i < place {
            i
        } else {
            i + 1
        };
        let q = if j < place {
            j
        } else {
            j + 1
        };
        assert(keys[p].before(keys[q]));
    }
    increasing_has_no_duplicates(keys);
    assert forall|k: K| after.to_set().contains(k) == keys.to_set().remove(keys[place]).contains(
        k,
    ) by {
        if after.contains(k) {
            let i = after.index_of(k);
            if i < place {
                assert(keys[i] == k);
            } else {
                assert(keys[i + 1] == k);
            }
        }
        if keys.contains(k) && k != keys[place] {
            let i = keys.index_of(k);
            if i < place {
                assert(after[i] == k);
            } else {
                assert(after[i - 1] == k);
            }
        }
    }
    assert(after.to_set() =~= keys.to_set().remove(keys[place]));
}

/// A set of keys, walked in increasing order.
#[derive(Debug)]
pub struct SortedSet<K> {
    pub items: Vec<K>,
}

impl<K: Key> View for SortedSet<K> {
    type V = Set<K>;

    open spec fn view(&self) -> Set<K> {
        self.items@.to_set()
    }
}

impl<K: Key> SortedSet<K> {
    pub open spec fn wf(self) -> bool {
        increasing(self.items@)
    }

    pub fn new() -> (result: Self)
        ensures
            result.wf(),
            result@ == Set::<K>::empty(),
            result.items@.len() == 0,
    {
        let result = SortedSet { items: Vec::new() };
        assert(result@ =~= Set::<K>::empty());
        result
    }

    pub fn contains(&self, key: &K) -> (result: bool)
        requires
            self.wf(),
        ensures
            result == self@.contains(*key),
    {
        let place: usize = position(&self.items, key);
        place < self.items.len() && same_key(&self.items[place], key)
    }

    /// Adds a key; true where it was not there before.
    pub fn insert(&mut self, key: K) -> (result: bool)
        requires
            old(self).wf(),
        ensures
            final(self).wf(),
            final(self)@ == old(self)@.insert(key),
            result == !old(self)@.contains(key),
            final(self).items@.len() == old(self).items@.len() + (if result {
                1int
            } else {
                0int
            }),
    {
        let place: usize = position(&self.items, &key);
        if place < self.items.len() && same_key(&self.items[place], &key) {
            assert(self@ =~= self@.insert(key));
            false
        } else {
            proof {
                insertion_keeps_order(self.items@, place as int, key);
            }
            self.items.insert(place, key);
            true
        }
    }

    /// Takes a key out; true where it was there.
    pub fn remove(&mut self, key: &K) -> (result: bool)
        requires
            old(self).wf(),
        ensures
            final(self).wf(),
            final(self)@ == old(self)@.remove(*key),
            result == old(self)@.contains(*key),
    {
        let place: usize = position(&self.items, key);
        if place < self.items.len() && same_key(&self.items[place], key) {
            proof {
                removal_keeps_order(self.items@, place as int);
            }
            self.items.remove(place);
            true
        } else {
            assert(self@ =~= self@.remove(*key));
            false
        }
    }
}

/// A map, walked in increasing order of its keys.
#[derive(Debug)]
pub struct SortedMap<K, V> {
    pub keys: Vec<K>,
    pub values: Vec<V>,
}

impl<K: Key, V> View for SortedMap<K, V> {
    type V = Map<K, V>;

    open spec fn view(&self) -> Map<K, V> {
        Map::new(
            |key: K| self.keys@.contains(key),
            |key: K| self.values@[self.keys@.index_of(key)],
        )
    }
}

impl<K: Key, V> SortedMap<K, V> {
    pub open spec fn wf(self) -> bool {
        increasing(self.keys@) && self.keys@.len() == self.values@.len()
    }

    /// The entry at a place is the value under its key.
    pub proof fn entry_at(self, place: int)
        requires
            self.wf(),
            0 <= place < self.keys@.len(),
        ensures
            self@.dom().contains(self.keys@[place]),
            self@[self.keys@[place]] == self.values@[place],
            self.keys@.index_of(self.keys@[place]) == place,
    {
        increasing_has_no_duplicates(self.keys@);
        let key = self.keys@[place];
        assert(self.keys@.contains(key));
        assert(self.keys@[self.keys@.index_of(key)] == key);
    }

    pub fn new() -> (result: Self)
        ensures
            result.wf(),
            result@ == Map::<K, V>::empty(),
            result.keys@.len() == 0,
    {
        let result = SortedMap { keys: Vec::new(), values: Vec::new() };
        assert(result@ =~= Map::<K, V>::empty());
        result
    }

    pub fn len(&self) -> (result: usize)
        ensures
            result == self.keys@.len(),
    {
        self.keys.len()
    }

    pub fn contains_key(&self, key: &K) -> (result: bool)
        requires
            self.wf(),
        ensures
            result == self@.dom().contains(*key),
    {
        let place: usize = position(&self.keys, key);
        place < self.keys.len() && same_key(&self.keys[place], key)
    }

    /// The place of a key, where it is there.
    pub fn find(&self, key: &K) -> (result: Option<usize>)
        requires
            self.wf(),
        ensures
            match result {
                Some(place) => place < self.keys@.len() && self.keys@[place as int] == *key
                    && self@.dom().contains(*key) && self@[*key] == self.values@[place as int],
                None => !self@.dom().contains(*key),
            },
    {
        let place: usize = position(&self.keys, key);
        if place < self.keys.len() && same_key(&self.keys[place], key) {
            proof {
                self.entry_at(place as int);
            }
            Some(place)
        } else {
            None
        }
    }

    pub fn get(&self, key: &K) -> (result: Option<&V>)
        requires
            self.wf(),
        ensures
            match result {
                Some(value) => self@.dom().contains(*key) && self@[*key] == *value,
                None => !self@.dom().contains(*key),
            },
    {
        match self.find(key) {
            Some(place) => Some(&self.values[place]),
            None => None,
        }
    }

    /// Puts a value under a key; true where the key was not there before.
    pub fn insert(&mut self, key: K, value: V) -> (result: bool)
        requires
            old(self).wf(),
        ensures
            final(self).wf(),
            final(self)@ == old(self)@.insert(key, value),
            result == !old(self)@.dom().contains(key),
            final(self).keys@.len() == old(self).keys@.len() + (if result {
                1int
            } else {
                0int
            }),
            !result ==> final(self).keys@ == old(self).keys@,
    {
        let ghost before = *self;
        let place: usize = position(&self.keys, &key);
        if place < self.keys.len() && same_key(&self.keys[place], &key) {
            self.values.set(place, value);
            proof {
                before.entry_at(place as int);
                self.entry_at(place as int);
                assert forall|k: K| before@.dom().contains(k) && k != key implies self@[k]
                    == before@[k] by {
                    let i = before.keys@.index_of(k);
                    assert(before.keys@[i] == k);
                    assert(i != place);
                }
                assert(self@ =~= before@.insert(key, value));
            }
            false
        } else {
            proof {
                insertion_keeps_order(self.keys@, place as int, key);
            }
            self.keys.insert(place, key);
            self.values.insert(place, value);
            proof {
                self.entry_at(place as int);
                assert forall|k: K| before@.dom().contains(k) implies self@.dom().contains(k)
                    && self@[k] == before@[k] by {
                    let i = before.keys@.index_of(k);
                    assert(before.keys@[i] == k);
                    let j = if i < place {
                        i
                    } else {
                        i + 1
                    };
                    assert(self.keys@[j] == k);
                    self.entry_at(j);
                }
                assert forall|k: K| self@.dom().contains(k) && k != key implies before@.dom().contains(
                    k,
                ) by {
                    assert(self.keys@.to_set().contains(k));
                    assert(before.keys@.to_set().contains(k));
                }
                assert(self@ =~= before@.insert(key, value));
            }
            true
        }
    }

    /// Takes a key out; true where it was there.
    pub fn remove(&mut self, key: &K) -> (result: bool)
        requires
            old(self).wf(),
        ensures
            final(self).wf(),
            final(self)@ == old(self)@.remove(*key),
            result == old(self)@.dom().contains(*key),
    {
        let ghost before = *self;
        let place: usize = position(&self.keys, key);
        if place < self.keys.len() && same_key(&self.keys[place], key) {
            proof {
                removal_keeps_order(self.keys@, place as int);
            }
            self.keys.remove(place);
            self.values.remove(place);
            proof {
                assert forall|k: K| self@.dom().contains(k) implies before@.dom().contains(k) && k
                    != *key && self@[k] == before@[k] by {
                    let i = self.keys@.index_of(k);
                    assert(self.keys@[i] == k);
                    assert(self.keys@.to_set().contains(k));
                    let j = if i < place {
                        i
                    } else {
                        i + 1
                    };
                    assert(before.keys@[j] == k);
                    before.entry_at(j);
                    self.entry_at(i);
                }
                assert forall|k: K| before@.dom().contains(k) && k != *key implies self@.dom().contains(
                    k,
                ) by {
                    assert(before.keys@.to_set().contains(k));
                    assert(self.keys@.to_set().contains(k));
                }
                assert(self@ =~= before@.remove(*key));
            }
            true
        } else {
            assert(self@ =~= self@.remove(*key));
            false
        }
    }
}

/// No key comes before one that stands to its left.
pub open spec fn ordered<K: Key>(keys: Seq<K>) -> bool {
    forall|i: int, j: int|
        0 <= i < j < keys.len() ==> !(#[trigger] keys[j]).before(#[trigger] keys[i])
}

/// An ordered sequence without duplicates is strictly increasing.
pub proof fn ordered_without_duplicates<K: Key>(keys: Seq<K>)
    requires
        ordered(keys),
        keys.no_duplicates(),
    ensures
        increasing(keys),
{
    assert forall|i: int, j: int| 0 <= i < j < keys.len() implies (#[trigger] keys[i]).before(
        #[trigger] keys[j],
    ) by {
        K::total(keys[i], keys[j]);
    }
}

proof fn not_before_transitive<K: Key>(a: K, b: K, c: K)
    requires
        !b.before(a),
        !c.before(b),
    ensures
        !c.before(a),
{
    if c.before(a) {
        K::total(a, b);
        if a == b {
        } else {
            K::transitive(c, a, b);
        }
    }
}

fn merge<K: Key + Copy>(left: &Vec<K>, right: &Vec<K>) -> (result: Vec<K>)
    requires
        ordered(left@),
        ordered(right@),
        left.len() + right.len() <= usize::MAX,
    ensures
        ordered(result@),
        result@.to_multiset() == left@.to_multiset().add(right@.to_multiset()),
{
    broadcast use vstd::seq_lib::group_to_multiset_ensures;

    let mut result: Vec<K> = Vec::new();
    let mut i: usize = 0;
    let mut j: usize = 0;
    assert(left@.take(0) =~= Seq::<K>::empty());
    assert(right@.take(0) =~= Seq::<K>::empty());
    while i < left.len() || j < right.len()
        invariant
            i <= left.len(),
            j <= right.len(),
            left.len() + right.len() <= usize::MAX,
            ordered(left@),
            ordered(right@),
            ordered(result@),
            result@.to_multiset() =~= left@.take(i as int).to_multiset().add(
                right@.take(j as int).to_multiset(),
            ),
            forall|p: int, q: int|
                0 <= p < result.len() && i <= q < left.len() ==> !(#[trigger] left[q]).before(
                    #[trigger] result[p],
                ),
            forall|p: int, q: int|
                0 <= p < result.len() && j <= q < right.len() ==> !(#[trigger] right[q]).before(
                    #[trigger] result[p],
                ),
        decreases left.len() - i + right.len() - j,
    {
        let ghost before = result@;
        if j >= right.len() || (i < left.len() && !right[j].precedes(&left[i])) {
            let key = left[i];
            result.push(key);
            proof {
                assert(left@.take(i as int + 1) =~= left@.take(i as int).push(key));
                before.to_multiset_ensures();
                left@.take(i as int).to_multiset_ensures();
                assert(result@.to_multiset() =~= left@.take(i as int + 1).to_multiset().add(
                    right@.take(j as int).to_multiset(),
                ));
                assert forall|q: int| j <= q < right.len() implies !(#[trigger] right[q]).before(key) by {
                    if q > j {
                        not_before_transitive(key, right[j as int], right[q]);
                    }
                }
                K::irreflexive(key);
            }
            i = i + 1;
        } else {
            let key = right[j];
            result.push(key);
            proof {
                assert(right@.take(j as int + 1) =~= right@.take(j as int).push(key));
                before.to_multiset_ensures();
                right@.take(j as int).to_multiset_ensures();
                assert(result@.to_multiset() =~= left@.take(i as int).to_multiset().add(
                    right@.take(j as int + 1).to_multiset(),
                ));
                if i < left.len() {
                    K::irreflexive(key);
                    if left[i as int].before(key) {
                        K::transitive(key, left[i as int], key);
                    }
                }
                assert forall|q: int| i <= q < left.len() implies !(#[trigger] left[q]).before(key) by {
                    if q > i {
                        not_before_transitive(key, left[i as int], left[q]);
                    }
                }
                K::irreflexive(key);
            }
            j = j + 1;
        }
    }
    assert(left@.take(i as int) =~= left@);
    assert(right@.take(j as int) =~= right@);
    result
}

fn sorted_range<K: Key + Copy>(items: &Vec<K>, low: usize, high: usize) -> (result: Vec<K>)
    requires
        low <= high <= items.len(),
    ensures
        ordered(result@),
        result.len() == high - low,
        result@.to_multiset() == items@.subrange(low as int, high as int).to_multiset(),
    decreases high - low,
{
    if high - low <= 1 {
        let mut result: Vec<K> = Vec::new();
        if low < high {
            result.push(items[low]);
        }
        assert(result@ =~= items@.subrange(low as int, high as int));
        result
    } else {
        let middle: usize = low + (high - low) / 2;
        let left = sorted_range(items, low, middle);
        let right = sorted_range(items, middle, high);
        let result = merge(&left, &right);
        proof {
            let a = items@.subrange(low as int, middle as int);
            let b = items@.subrange(middle as int, high as int);
            assert(items@.subrange(low as int, high as int) =~= a + b);
            vstd::seq_lib::lemma_multiset_commutative(a, b);
            vstd::seq_lib::lemma_multiset_commutative(left@, right@);
            result@.to_multiset_ensures();
            left@.to_multiset_ensures();
            right@.to_multiset_ensures();
        }
        result
    }
}

/// Sorts a list of keys.
pub fn sort_keys<K: Key + Copy>(items: &mut Vec<K>)
    ensures
        ordered(final(items)@),
        final(items)@.to_multiset() == old(items)@.to_multiset(),
{
    let count: usize = items.len();
    let result = sorted_range(items, 0, count);
    proof {
        assert(items@.subrange(0, count as int) =~= items@);
    }
    *items = result;
}

/// A rearrangement holds the same keys, as often.
pub proof fn rearranged<K>(a: Seq<K>, b: Seq<K>)
    requires
        a.to_multiset() == b.to_multiset(),
    ensures
        a.len() == b.len(),
        forall|k: K| #[trigger] a.contains(k) == b.contains(k),
        a.no_duplicates() == b.no_duplicates(),
{
    a.to_multiset_ensures();
    b.to_multiset_ensures();
    if a.no_duplicates() {
        a.lemma_multiset_has_no_duplicates();
        b.lemma_multiset_has_no_duplicates_conv();
    }
    if b.no_duplicates() {
        b.lemma_multiset_has_no_duplicates();
        a.lemma_multiset_has_no_duplicates_conv();
    }
    assert forall|k: K| #[trigger] a.contains(k) == b.contains(k) by {
        assert(a.contains(k) <==> a.to_multiset().count(k) > 0);
        assert(b.contains(k) <==> b.to_multiset().count(k) > 0);
    }
}

/// Two ordered sequences of the same keys, each as often, are the same.
pub proof fn ordered_sequence_is_unique<K: Key>(a: Seq<K>, b: Seq<K>)
    requires
        ordered(a),
        ordered(b),
        a.to_multiset() == b.to_multiset(),
    ensures
        a == b,
    decreases a.len(),
{
    rearranged(a, b);
    if a.len() == 0 {
        assert(a =~= b);
    } else {
        let x = a.last();
        let y = b.last();
        assert(a.contains(x));
        assert(b.contains(y));
        assert(b.contains(x));
        assert(a.contains(y));
        let i = b.index_of(x);
        let j = a.index_of(y);
        K::total(x, y);
        K::irreflexive(x);
        if x != y {
            assert(!b[b.len() - 1].before(b[i]));
            assert(!a[a.len() - 1].before(a[j]));
        }
        let p = a.drop_last();
        let q = b.drop_last();
        assert(p.push(x) =~= a);
        assert(q.push(y) =~= b);
        p.to_multiset_ensures();
        q.to_multiset_ensures();
        assert(a.to_multiset() =~= p.to_multiset().insert(x));
        assert(b.to_multiset() =~= q.to_multiset().insert(x));
        assert forall|k: K| p.to_multiset().count(k) == q.to_multiset().count(k) by {
            assert(p.to_multiset().insert(x).count(k) == q.to_multiset().insert(x).count(k));
        }
        assert(p.to_multiset() =~= q.to_multiset());
        ordered_sequence_is_unique(p, q);
    }
}

/// Adding a later key at the end keeps the order.
pub proof fn push_keeps_order<K: Key>(keys: Seq<K>, key: K)
    requires
        increasing(keys),
        keys.len() > 0 ==> keys.last().before(key),
    ensures
        increasing(keys.push(key)),
{
    let after = keys.push(key);
    assert forall|i: int, j: int| 0 <= i < j < after.len() implies (#[trigger] after[i]).before(
        #[trigger] after[j],
    ) by {
        if j == keys.len() && i < j - 1 {
            assert(keys[i].before(keys.last()));
            K::transitive(keys[i], keys.last(), key);
        }
    }
}

impl<K: Key + Copy, V: Copy> SortedMap<K, V> {
    /// Drops every entry whose key is not in the set.
    pub fn restrict(&mut self, keep: &SortedSet<K>)
        requires
            old(self).wf(),
            keep.wf(),
        ensures
            final(self).wf(),
            final(self)@ == old(self)@.restrict(keep@),
    {
        let ghost before = *self;
        let mut keys: Vec<K> = Vec::new();
        let mut values: Vec<V> = Vec::new();
        let mut i: usize = 0;
        while i < self.keys.len()
            invariant
                i <= self.keys@.len(),
                *self == before,
                self.wf(),
                keep.wf(),
                increasing(keys@),
                keys@.len() == values@.len(),
                forall|k: int|
                    0 <= k < keys@.len() ==> keep@.contains(#[trigger] keys@[k])
                        && before@.dom().contains(keys@[k]) && before@[keys@[k]] == values@[k],
                keys@.len() > 0 ==> i > 0 && (keys@.last() == before.keys@[i - 1]
                    || keys@.last().before(before.keys@[i - 1])),
                forall|p: int|
                    0 <= p < i && keep@.contains(#[trigger] before.keys@[p]) ==> keys@.contains(
                        before.keys@[p],
                    ),
            decreases self.keys@.len() - i,
        {
            let key = self.keys[i];
            proof {
                before.entry_at(i as int);
                if keys@.len() > 0 {
                    assert(before.keys@[i - 1].before(before.keys@[i as int]));
                    if keys@.last() != before.keys@[i - 1] {
                        K::transitive(keys@.last(), before.keys@[i - 1], key);
                    }
                }
            }
            if keep.contains(&key) {
                let ghost so_far = keys@;
                proof {
                    push_keeps_order(so_far, key);
                }
                keys.push(key);
                values.push(self.values[i]);
                proof {
                    assert(keys@[so_far.len() as int] == key);
                    assert forall|p: int|
                        0 <= p < i + 1 && keep@.contains(#[trigger] before.keys@[p]) implies keys@.contains(
                        before.keys@[p],
                    ) by {
                        if p < i {
                            let q = so_far.index_of(before.keys@[p]);
                            assert(keys@[q] == before.keys@[p]);
                        }
                    }
                }
            }
            i = i + 1;
        }
        self.keys = keys;
        self.values = values;
        proof {
            let wanted = before@.restrict(keep@);
            assert forall|k: K| self@.dom().contains(k) == wanted.dom().contains(k) by {
                if self.keys@.contains(k) {
                    let q = self.keys@.index_of(k);
                    assert(self.keys@[q] == k);
                }
                if wanted.dom().contains(k) {
                    let p = before.keys@.index_of(k);
                    assert(before.keys@[p] == k);
                }
            }
            assert forall|k: K| self@.dom().contains(k) implies self@[k] == wanted[k] by {
                let q = self.keys@.index_of(k);
                assert(self.keys@[q] == k);
            }
            assert(self@ =~= wanted);
        }
    }
}

} // verus!
