use vstd::prelude::*;

verus! {

/// The keys rise strictly: none occurs twice.
pub open spec fn ascending(keys: Seq<i64>) -> bool {
    forall|i: int, j: int| 0 <= i < j < keys.len() ==> keys[i] < keys[j]
}

/// `key` is one of `keys`.
pub open spec fn has_key(keys: Seq<i64>, key: int) -> bool {
    exists|i: int| 0 <= i < keys.len() && #[trigger] keys[i] == key
}

/// A place of `key` among `keys`.
pub open spec fn index_of(keys: Seq<i64>, key: int) -> int {
    choose|i: int| 0 <= i < keys.len() && #[trigger] keys[i] == key
}

/// The mapping that sends each of `keys` to the value at the same place.
pub open spec fn to_map<V>(keys: Seq<i64>, values: Seq<V>) -> Map<int, V> {
    Map::new(|k: int| has_key(keys, k), |k: int| values[index_of(keys, k)])
}

/// Each key of rising keys is mapped to the value at its own place.
pub proof fn lemma_map_at<V>(keys: Seq<i64>, values: Seq<V>, i: int)
    requires
        ascending(keys),
        0 <= i < keys.len(),
    ensures
        to_map(keys, values).contains_key(keys[i] as int),
        to_map(keys, values)[keys[i] as int] == values[i],
{
    let k = keys[i] as int;
    assert(has_key(keys, k));
    let j = index_of(keys, k);
    assert(j == i) by {
        if j < i {
            assert(keys[j] < keys[i]);
        } else if i < j {
            assert(keys[i] < keys[j]);
        }
    }
}

/// Putting a new key at its place among rising keys keeps them rising and adds
/// one pair to the mapping.
pub proof fn lemma_insert<V>(keys: Seq<i64>, values: Seq<V>, at: int, key: i64, value: V)
    requires
        ascending(keys),
        keys.len() == values.len(),
        0 <= at <= keys.len(),
        forall|j: int| 0 <= j < at ==> keys[j] < key,
        forall|j: int| at <= j < keys.len() ==> key < keys[j],
    ensures
        ascending(keys.insert(at, key)),
        to_map(keys.insert(at, key), values.insert(at, value)) == to_map(keys, values).insert(
            key as int,
            value,
        ),
{
    let keys2 = keys.insert(at, key);
    let values2 = values.insert(at, value);
    assert(ascending(keys2)) by {
        assert forall|i: int, j: int| 0 <= i < j < keys2.len() implies keys2[i] < keys2[j] by {
            let a = if i < at { i } else { i - 1 };
            let b = if j < at { j } else { j - 1 };
            if i != at && j != at {
                assert(keys[a] < keys[b]);
            }
        }
    }
    let m = to_map(keys, values);
    let m2 = to_map(keys2, values2);
    assert forall|k: int| m2.contains_key(k) <==> m.insert(key as int, value).contains_key(
        k,
    ) by {
        if has_key(keys2, k) {
            let i = index_of(keys2, k);
            if i < at {
                assert(keys[i] == k);
            } else if i > at {
                assert(keys[i - 1] == k);
            }
        }
        if has_key(keys, k) {
            let i = index_of(keys, k);
            if i < at {
                assert(keys2[i] == k);
            } else {
                assert(keys2[i + 1] == k);
            }
        }
        if k == key {
            assert(keys2[at] == k);
        }
    }
    assert forall|k: int| m2.contains_key(k) implies m2[k] == m.insert(key as int, value)[k] by {
        let i = index_of(keys2, k);
        lemma_map_at(keys2, values2, i);
        if i < at {
            lemma_map_at(keys, values, i);
        } else if i > at {
            lemma_map_at(keys, values, i - 1);
        }
    }
    assert(m2 =~= m.insert(key as int, value));
}

/// Taking a key out of rising keys keeps them rising and takes its pair out
/// of the mapping.
pub proof fn lemma_remove<V>(keys: Seq<i64>, values: Seq<V>, at: int)
    requires
        ascending(keys),
        keys.len() == values.len(),
        0 <= at < keys.len(),
    ensures
        ascending(keys.remove(at)),
        to_map(keys.remove(at), values.remove(at)) == to_map(keys, values).remove(
            keys[at] as int,
        ),
{
    let keys2 = keys.remove(at);
    let values2 = values.remove(at);
    assert(ascending(keys2)) by {
        assert forall|i: int, j: int| 0 <= i < j < keys2.len() implies keys2[i] < keys2[j] by {
            let a = if i < at { i } else { i + 1 };
            let b = if j < at { j } else { j + 1 };
            assert(keys[a] < keys[b]);
        }
    }
    let m = to_map(keys, values);
    let m2 = to_map(keys2, values2);
    assert forall|k: int| m2.contains_key(k) <==> m.remove(keys[at] as int).contains_key(k) by {
        if has_key(keys2, k) {
            let i = index_of(keys2, k);
            let a = if i < at { i } else { i + 1 };
            assert(keys[a] == k);
            if a < at {
                assert(keys[a] < keys[at]);
            } else {
                assert(keys[at] < keys[a]);
            }
        }
        if has_key(keys, k) && k != keys[at] {
            let i = index_of(keys, k);
            if i < at {
                assert(keys2[i] == k);
            } else {
                assert(keys2[i - 1] == k);
            }
        }
    }
    assert forall|k: int| m2.contains_key(k) implies m2[k] == m.remove(keys[at] as int)[k] by {
        let i = index_of(keys2, k);
        lemma_map_at(keys2, values2, i);
        let a = if i < at { i } else { i + 1 };
        lemma_map_at(keys, values, a);
    }
    assert(m2 =~= m.remove(keys[at] as int));
}

/// Rising keys are as many as the keys of their mapping.
pub proof fn lemma_count<V>(keys: Seq<i64>, values: Seq<V>)
    requires
        ascending(keys),
    ensures
        to_map(keys, values).dom().finite(),
        to_map(keys, values).dom().len() == keys.len(),
    decreases keys.len(),
{
    let m = to_map(keys, values);
    if keys.len() == 0 {
        assert(m.dom() =~= Set::<int>::empty());
    } else {
        let last = keys.len() - 1;
        let front = keys.drop_last();
        let m1 = to_map(front, values);
        lemma_count(front, values);
        assert(m.dom() =~= m1.dom().insert(keys[last] as int)) by {
            assert forall|k: int| m.dom().contains(k) <==> m1.dom().insert(
                keys[last] as int,
            ).contains(k) by {
                if has_key(keys, k) {
                    let i = index_of(keys, k);
                    if i < last {
                        assert(front[i] == k);
                    }
                }
                if has_key(front, k) {
                    let i = index_of(front, k);
                    assert(keys[i] == k);
                }
                if k == keys[last] {
                    assert(keys[last] == k);
                }
            }
        }
        assert(!m1.dom().contains(keys[last] as int)) by {
            if has_key(front, keys[last] as int) {
                let i = index_of(front, keys[last] as int);
                assert(keys[i] < keys[last]);
            }
        }
    }
}

/// `items` lists the pairs of `m` by falling key, each once.
pub open spec fn lists_descending<M>(items: Seq<(int, M)>, m: Map<int, M>) -> bool {
    &&& m.dom().finite()
    &&& items.len() == m.dom().len()
    &&& forall|i: int, j: int| 0 <= i < j < items.len() ==> items[i].0 > items[j].0
    &&& forall|i: int|
        0 <= i < items.len() ==> m.contains_key(#[trigger] items[i].0) && m[items[i].0]
            == items[i].1
}

/// Rising keys and their values, taken from the last to the first and each
/// value seen through `f`, list the mapping by falling key.
pub proof fn lemma_descending<V, M>(
    keys: Seq<i64>,
    values: Seq<V>,
    f: spec_fn(V) -> M,
    items: Seq<(int, M)>,
)
    requires
        ascending(keys),
        keys.len() == values.len(),
        items.len() == keys.len(),
        forall|i: int|
            0 <= i < items.len() ==> #[trigger] items[i] == (
                keys[keys.len() - 1 - i] as int,
                f(values[keys.len() - 1 - i]),
            ),
    ensures
        lists_descending(items, to_map(keys, values).map_values(f)),
{
    let m = to_map(keys, values);
    let n = keys.len() as int;
    lemma_count(keys, values);
    assert(m.map_values(f).dom() =~= m.dom());
    assert forall|i: int, j: int| 0 <= i < j < items.len() implies items[i].0 > items[j].0 by {
        assert(items[i].0 == keys[n - 1 - i]);
        assert(items[j].0 == keys[n - 1 - j]);
        assert(keys[n - 1 - j] < keys[n - 1 - i]);
    }
    assert forall|i: int| 0 <= i < items.len() implies m.map_values(f).contains_key(
        #[trigger] items[i].0,
    ) && m.map_values(f)[items[i].0] == items[i].1 by {
        assert(items[i] == (keys[n - 1 - i] as int, f(values[n - 1 - i])));
        lemma_map_at(keys, values, n - 1 - i);
    }
}

/// A list by falling key holds no key twice, and holds every key of the mapping.
pub proof fn lemma_descending_complete<M>(items: Seq<(int, M)>, m: Map<int, M>)
    requires
        lists_descending(items, m),
    ensures
        forall|i: int, j: int| 0 <= i < j < items.len() ==> items[i].0 != items[j].0,
        forall|k: int|
            m.contains_key(k) ==> exists|i: int| 0 <= i < items.len() && #[trigger] items[i].0 == k,
{
    let keys = items.map_values(|p: (int, M)| p.0);
    assert(keys.no_duplicates()) by {
        assert forall|i: int, j: int|
            0 <= i < keys.len() && 0 <= j < keys.len() && i != j implies keys[i] != keys[j] by {
            if i < j {
                assert(items[i].0 > items[j].0);
            } else {
                assert(items[j].0 > items[i].0);
            }
        }
    }
    keys.unique_seq_to_set();
    assert(keys.to_set().subset_of(m.dom())) by {
        assert forall|k: int| keys.to_set().contains(k) implies m.dom().contains(k) by {
            let i = choose|i: int| 0 <= i < keys.len() && keys[i] == k;
            assert(m.contains_key(items[i].0));
        }
    }
    vstd::set_lib::lemma_subset_equality(keys.to_set(), m.dom());
    assert forall|k: int| m.contains_key(k) implies exists|i: int|
        0 <= i < items.len() && #[trigger] items[i].0 == k by {
        assert(keys.to_set().contains(k));
        let i = choose|i: int| 0 <= i < keys.len() && keys[i] == k;
        assert(items[i].0 == k);
    }
}

/// A mapping has one list by falling key only: whatever order its pairs
/// were put in, going through them gives the same.
pub proof fn lemma_listing_unique<M>(a: Seq<(int, M)>, b: Seq<(int, M)>, m: Map<int, M>)
    requires
        lists_descending(a, m),
        lists_descending(b, m),
    ensures
        a == b,
{
    lemma_descending_complete(a, m);
    lemma_descending_complete(b, m);
    assert forall|i: int| 0 <= i < a.len() implies a[i] == b[i] by {
        lemma_same_place(a, b, m, i);
    }
    assert(a =~= b);
}

proof fn lemma_same_place<M>(a: Seq<(int, M)>, b: Seq<(int, M)>, m: Map<int, M>, i: int)
    requires
        lists_descending(a, m),
        lists_descending(b, m),
        0 <= i < a.len(),
    ensures
        a[i] == b[i],
    decreases i,
{
    lemma_descending_complete(a, m);
    lemma_descending_complete(b, m);
    let key = a[i].0;
    assert(m.contains_key(key));
    let j = choose|j: int| 0 <= j < b.len() && #[trigger] b[j].0 == key;
    if j != i {
        if j < i {
            lemma_same_place(a, b, m, j);
            assert(a[j].0 > a[i].0);
        } else {
            let other = b[i].0;
            assert(b[i].0 > b[j].0);
            assert(m.contains_key(other));
            let k = choose|k: int| 0 <= k < a.len() && #[trigger] a[k].0 == other;
            if k < i {
                lemma_same_place(a, b, m, k);
                assert(b[k].0 == other);
                assert(b[k].0 > b[i].0);
            } else if k > i {
                assert(a[i].0 > a[k].0);
            }
        }
    }
    assert(b[i].0 == key);
    assert(m[key] == a[i].1 && m[key] == b[i].1);
}

/// The pairs of a mapping by falling key: the order in which a table is
/// gone through.
pub open spec fn listing<M>(m: Map<int, M>) -> Seq<(int, M)> {
    choose|items: Seq<(int, M)>| lists_descending(items, m)
}

/// A list of a mapping by falling key is the list of that mapping.
pub proof fn lemma_listing<M>(items: Seq<(int, M)>, m: Map<int, M>)
    requires
        lists_descending(items, m),
    ensures
        listing(m) == items,
{
    lemma_listing_unique(listing(m), items, m);
}

/// The pairs of rising keys and their values, from the last to the first,
/// each value seen through `f`.
pub open spec fn backwards<V, M>(keys: Seq<i64>, values: Seq<V>, f: spec_fn(V) -> M) -> Seq<
    (int, M),
> {
    Seq::new(
        keys.len(),
        |i: int| (keys[keys.len() - 1 - i] as int, f(values[keys.len() - 1 - i])),
    )
}

/// Going through rising keys backwards lists their mapping.
pub proof fn lemma_backwards<V, M>(keys: Seq<i64>, values: Seq<V>, f: spec_fn(V) -> M)
    requires
        ascending(keys),
        keys.len() == values.len(),
    ensures
        listing(to_map(keys, values).map_values(f)) == backwards(keys, values, f),
{
    lemma_descending(keys, values, f, backwards(keys, values, f));
    lemma_listing(backwards(keys, values, f), to_map(keys, values).map_values(f));
}

/// Putting the pairs from place `i` on into `acc`, one by one: `None` as soon
/// as a key comes that is there already.
pub open spec fn collect<M>(keys: Seq<int>, values: Seq<M>, i: int, acc: Map<int, M>) -> Option<
    Map<int, M>,
>
    decreases keys.len() - i,
{
    if i < 0 || i >= keys.len() {
        Some(acc)
    } else if acc.contains_key(keys[i]) {
        None
    } else {
        collect(keys, values, i + 1, acc.insert(keys[i], values[i]))
    }
}

proof fn lemma_collect_from<M>(keys: Seq<int>, values: Seq<M>, i: int, acc: Map<int, M>)
    requires
        keys.len() == values.len(),
        0 <= i <= keys.len(),
        keys.take(i).no_duplicates(),
        acc.dom() == keys.take(i).to_set(),
        forall|j: int| 0 <= j < i ==> acc[#[trigger] keys[j]] == values[j],
    ensures
        match collect(keys, values, i, acc) {
            None => !keys.no_duplicates(),
            Some(m) => {
                &&& keys.no_duplicates()
                &&& m.dom() == keys.to_set()
                &&& forall|j: int| 0 <= j < keys.len() ==> m[#[trigger] keys[j]] == values[j]
            },
        },
    decreases keys.len() - i,
{
    if i >= keys.len() {
        assert(keys.take(i) =~= keys);
    } else if acc.contains_key(keys[i]) {
        let front = keys.take(i);
        let j = choose|j: int| 0 <= j < i && front[j] == keys[i];
        assert(keys[j] == keys[i]);
    } else {
        let acc2 = acc.insert(keys[i], values[i]);
        let front = keys.take(i);
        let longer = keys.take(i + 1);
        assert(longer =~= front.push(keys[i]));
        assert(longer.no_duplicates()) by {
            assert forall|a: int, b: int|
                0 <= a < i + 1 && 0 <= b < i + 1 && a != b implies #[trigger] longer[a]
                != #[trigger] longer[b] by {
                if a < i && b < i {
                    assert(front[a] != front[b]);
                } else if a < i {
                    assert(front[a] == keys[a]);
                    assert(front.to_set().contains(keys[a]));
                } else {
                    assert(front[b] == keys[b]);
                    assert(front.to_set().contains(keys[b]));
                }
            }
        }
        assert(acc2.dom() =~= longer.to_set()) by {
            assert forall|k: int| acc2.dom().contains(k) <==> longer.to_set().contains(k) by {
                if front.to_set().contains(k) {
                    let j = choose|j: int| 0 <= j < i && front[j] == k;
                    assert(longer[j] == k);
                }
                if longer.to_set().contains(k) {
                    let j = choose|j: int| 0 <= j < i + 1 && longer[j] == k;
                    if j < i {
                        assert(front[j] == k);
                    }
                }
                if k == keys[i] {
                    assert(longer[i] == k);
                }
            }
        }
        assert forall|j: int| 0 <= j < i + 1 implies acc2[#[trigger] keys[j]] == values[j] by {
            if j < i {
                assert(front[j] == keys[j]);
                assert(front.to_set().contains(keys[j]));
            }
        }
        lemma_collect_from(keys, values, i + 1, acc2);
    }
}

/// Putting pairs into an empty mapping one by one fails exactly where a key
/// comes twice. Where it does not fail, the mapping holds each pair, and no
/// other key.
pub proof fn lemma_collect<M>(keys: Seq<int>, values: Seq<M>)
    requires
        keys.len() == values.len(),
    ensures
        match collect(keys, values, 0, Map::empty()) {
            None => !keys.no_duplicates(),
            Some(m) => {
                &&& keys.no_duplicates()
                &&& m.dom() == keys.to_set()
                &&& forall|j: int| 0 <= j < keys.len() ==> m[#[trigger] keys[j]] == values[j]
            },
        },
{
    assert(Map::<int, M>::empty().dom() =~= keys.take(0).to_set());
    lemma_collect_from(keys, values, 0, Map::empty());
}

/// A table of values by integer key, kept in the order of the keys.
pub struct Table<V> {
    keys: Vec<i64>,
    values: Vec<V>,
}

impl<V> Table<V> {
    /// The keys, lowest first.
    pub closed spec fn keys(&self) -> Seq<i64> {
        self.keys@
    }

    /// The values, each at the place of its key.
    pub closed spec fn values(&self) -> Seq<V> {
        self.values@
    }

    /// No key occurs twice, and each has its value.
    pub open spec fn wf(&self) -> bool {
        &&& self.keys().len() == self.values().len()
        &&& ascending(self.keys())
    }

    /// The table as a mapping from keys to values.
    pub open spec fn view(&self) -> Map<int, V> {
        to_map(self.keys(), self.values())
    }

    /// A table without entries.
    pub fn new() -> (t: Table<V>)
        ensures
            t.wf(),
            t.keys().len() == 0,
            t@ == Map::<int, V>::empty(),
    {
        let t = Table { keys: Vec::new(), values: Vec::new() };
        assert(t@ =~= Map::<int, V>::empty());
        t
    }

    /// The number of entries.
    pub fn len(&self) -> (n: usize)
        requires
            self.wf(),
        ensures
            n == self.keys().len(),
            self@.dom().finite(),
            n == self@.dom().len(),
    {
        proof {
            lemma_count(self.keys(), self.values());
        }
        self.keys.len()
    }

    /// The key at place `i`, counted from the lowest.
    pub fn key_at(&self, i: usize) -> (key: i64)
        requires
            self.wf(),
            i < self.keys().len(),
        ensures
            key == self.keys()[i as int],
    {
        self.keys[i]
    }

    /// The value at place `i`, counted from the lowest key.
    pub fn value_at(&self, i: usize) -> (value: &V)
        requires
            self.wf(),
            i < self.keys().len(),
        ensures
            *value == self.values()[i as int],
            self@.contains_key(self.keys()[i as int] as int),
            self@[self.keys()[i as int] as int] == *value,
    {
        proof {
            lemma_map_at(self.keys(), self.values(), i as int);
        }
        &self.values[i]
    }

    /// The place of the first key that is not below `key`.
    fn search(&self, key: i64) -> (at: usize)
        requires
            self.wf(),
        ensures
            at <= self.keys().len(),
            forall|j: int| 0 <= j < at ==> self.keys()[j] < key,
            forall|j: int| at <= j < self.keys().len() ==> key <= self.keys()[j],
            self@.contains_key(key as int) <==> (at < self.keys().len() && self.keys()[at as int]
                == key),
    {
        let mut at: usize = 0;
        let mut end: usize = self.keys.len();
        while at < end
            invariant
                self.wf(),
                at <= end <= self.keys@.len(),
                forall|j: int| 0 <= j < at ==> self.keys@[j] < key,
                forall|j: int| end <= j < self.keys@.len() ==> key <= self.keys@[j],
            decreases end - at,
        {
            let mid = at + (end - at) / 2;
            if self.keys[mid] < key {
                assert forall|j: int| 0 <= j < mid + 1 implies self.keys@[j] < key by {
                    if j < mid {
                        assert(self.keys()[j] < self.keys()[mid as int]);
                    }
                }
                at = mid + 1;
            } else {
                assert forall|j: int| mid <= j < self.keys@.len() implies key <= self.keys@[j] by {
                    if mid < j {
                        assert(self.keys()[mid as int] < self.keys()[j]);
                    }
                }
                end = mid;
            }
        }
        proof {
            if has_key(self.keys(), key as int) {
                let i = index_of(self.keys(), key as int);
                if at < i {
                    assert(self.keys()[at as int] < self.keys()[i]);
                }
                assert(i == at);
            }
            if at < self.keys().len() && self.keys()[at as int] == key {
                assert(has_key(self.keys(), key as int));
            }
        }
        at
    }

    /// The value of `key`, if the table has it.
    pub fn get(&self, key: i64) -> (r: Option<&V>)
        requires
            self.wf(),
        ensures
            match r {
                Some(value) => self@.contains_key(key as int) && self@[key as int] == *value,
                None => !self@.contains_key(key as int),
            },
    {
        let at = self.search(key);
        if at < self.keys.len() && self.keys[at] == key {
            proof {
                lemma_map_at(self.keys(), self.values(), at as int);
            }
            Some(&self.values[at])
        } else {
            None
        }
    }

    /// Adds `value` under `key`. A key that the table has already is refused:
    /// the table stays as it is, and the result is false.
    pub fn insert(&mut self, key: i64, value: V) -> (added: bool)
        requires
            old(self).wf(),
        ensures
            final(self).wf(),
            added == !old(self)@.contains_key(key as int),
            added ==> final(self)@ == old(self)@.insert(key as int, value),
            !added ==> *final(self) == *old(self),
    {
        let at = self.search(key);
        if at < self.keys.len() && self.keys[at] == key {
            return false;
        }
        proof {
            lemma_insert(self.keys(), self.values(), at as int, key, value);
        }
        self.keys.insert(at, key);
        self.values.insert(at, value);
        true
    }

    /// Takes the highest key and its value out of the table, if it has any.
    pub fn pop(&mut self) -> (r: Option<(i64, V)>)
        requires
            old(self).wf(),
        ensures
            final(self).wf(),
            r is Some <==> old(self).keys().len() > 0,
            match r {
                Some((key, value)) => {
                    &&& old(self)@.contains_key(key as int)
                    &&& old(self)@[key as int] == value
                    &&& final(self)@ == old(self)@.remove(key as int)
                    &&& final(self).keys().len() == old(self).keys().len() - 1
                },
                None => old(self)@ == Map::<int, V>::empty() && *final(self) == *old(self),
            },
    {
        let n = self.keys.len();
        if n == 0 {
            assert(self@ =~= Map::<int, V>::empty());
            return None;
        }
        proof {
            lemma_remove(self.keys(), self.values(), n - 1);
            lemma_map_at(self.keys(), self.values(), n - 1);
        }
        let key = self.keys.remove(n - 1);
        let value = self.values.remove(n - 1);
        Some((key, value))
    }

    /// Takes `key` and its value out of the table.
    pub fn remove(&mut self, key: i64) -> (r: Option<V>)
        requires
            old(self).wf(),
        ensures
            final(self).wf(),
            final(self)@ == old(self)@.remove(key as int),
            match r {
                Some(value) => old(self)@.contains_key(key as int) && old(self)@[key as int]
                    == value,
                None => !old(self)@.contains_key(key as int),
            },
    {
        let at = self.search(key);
        if at < self.keys.len() && self.keys[at] == key {
            proof {
                lemma_remove(self.keys(), self.values(), at as int);
                lemma_map_at(self.keys(), self.values(), at as int);
            }
            self.keys.remove(at);
            let value = self.values.remove(at);
            Some(value)
        } else {
            assert(self@.remove(key as int) =~= self@);
            None
        }
    }
}

} // verus!
