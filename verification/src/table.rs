//! One column of the evidence store: values filed under byte-string keys, listed in key order.

use crate::bytes;
use crate::bytes::Order;
use vstd::prelude::*;

verus! {

/// What a list of keys holds.
pub open spec fn key_views(keys: Seq<Vec<u8>>) -> Seq<Seq<u8>> {
    keys.map_values(|key: Vec<u8>| key@)
}

/// Every key comes before the ones that follow it.
pub open spec fn ascending(keys: Seq<Seq<u8>>) -> bool {
    forall|i: int, j: int| 0 <= i < j < keys.len() ==> bytes::before(#[trigger] keys[i], #[trigger] keys[j])
}

/// `keys` are the keys of `map`, each once, in key order.
pub open spec fn lists<V>(keys: Seq<Seq<u8>>, map: Map<Seq<u8>, V>) -> bool {
    &&& ascending(keys)
    &&& forall|key: Seq<u8>| #[trigger] keys.contains(key) <==> map.contains_key(key)
}

/// The keys of a column in key order.
pub open spec fn listed<V>(map: Map<Seq<u8>, V>) -> Seq<Seq<u8>> {
    choose|keys: Seq<Seq<u8>>| lists(keys, map)
}

/// At most `limit` elements from the front of a list.
pub open spec fn first<A>(list: Seq<A>, limit: nat) -> Seq<A> {
    if list.len() <= limit {
        list
    } else {
        list.take(limit as int)
    }
}

/// The keys of a column that begin with `prefix`, in key order, at most `limit` of them.
pub open spec fn under_prefix<V>(map: Map<Seq<u8>, V>, prefix: Seq<u8>, limit: nat) -> Seq<Seq<u8>> {
    first(listed(map).filter(|key: Seq<u8>| bytes::starts_with(key, prefix)), limit)
}

/// The keys of a column from `start` to `end`, both among them, in key order, at most `limit`.
pub open spec fn in_range<V>(map: Map<Seq<u8>, V>, start: Seq<u8>, end: Seq<u8>, limit: nat) -> Seq<
    Seq<u8>,
> {
    first(
        listed(map).filter(
            |key: Seq<u8>| bytes::not_after(start, key) && bytes::not_after(key, end),
        ),
        limit,
    )
}

/// Two listings of the same keys are the same list.
pub proof fn lemma_one_listing(a: Seq<Seq<u8>>, b: Seq<Seq<u8>>)
    requires
        ascending(a),
        ascending(b),
        forall|key: Seq<u8>| #[trigger] a.contains(key) <==> b.contains(key),
    ensures
        a == b,
    decreases a.len(),
{
    if a.len() == 0 {
        if b.len() > 0 {
            assert(b.contains(b[0]));
            assert(a.contains(b[0]));
        }
        assert(a =~= b);
    } else {
        let (x, y) = (a.last(), b.last());
        assert(a.contains(x));
        assert(b.contains(x));
        assert(b.contains(y));
        assert(a.contains(y));
        let i = choose|i: int| 0 <= i < b.len() && b[i] == x;
        let j = choose|j: int| 0 <= j < a.len() && a[j] == y;
        if x != y {
            bytes::lemma_before_asymmetric(x, y);
        }
        assert forall|key: Seq<u8>| #[trigger] a.drop_last().contains(key) implies b.drop_last().contains(key) by {
            lemma_drop_last_contains(a, key);
            lemma_drop_last_contains(b, key);
        }
        assert forall|key: Seq<u8>| #[trigger] b.drop_last().contains(key) implies a.drop_last().contains(key) by {
            lemma_drop_last_contains(a, key);
            lemma_drop_last_contains(b, key);
        }
        lemma_one_listing(a.drop_last(), b.drop_last());
        assert(a =~= a.drop_last().push(x));
        assert(b =~= b.drop_last().push(y));
    }
}

proof fn lemma_drop_last_contains(a: Seq<Seq<u8>>, key: Seq<u8>)
    requires
        ascending(a),
        a.len() > 0,
    ensures
        a.drop_last().contains(key) <==> a.contains(key) && key != a.last(),
{
    if a.drop_last().contains(key) {
        let i = choose|i: int| 0 <= i < a.drop_last().len() && a.drop_last()[i] == key;
        assert(a[i] == key);
        bytes::lemma_before_irreflexive(a.last());
    }
    if a.contains(key) && key != a.last() {
        let i = choose|i: int| 0 <= i < a.len() && a[i] == key;
        assert(a.drop_last()[i] == key);
    }
}

/// A list of all keys in key order is the column's listing.
pub proof fn lemma_listed<V>(keys: Seq<Seq<u8>>, map: Map<Seq<u8>, V>)
    requires
        lists(keys, map),
    ensures
        listed(map) == keys,
        lists(listed(map), map),
{
    let other = listed(map);
    assert forall|key: Seq<u8>| #[trigger] keys.contains(key) <==> other.contains(key) by {}
    lemma_one_listing(keys, other);
}

/// The elements of a filtered listing are in key order, satisfy the test, and are all that do.
pub proof fn lemma_filtered(keys: Seq<Seq<u8>>, pred: spec_fn(Seq<u8>) -> bool)
    requires
        ascending(keys),
    ensures
        ascending(keys.filter(pred)),
        forall|key: Seq<u8>| #[trigger]
            keys.filter(pred).contains(key) <==> keys.contains(key) && pred(key),
    decreases keys.len(),
{
    reveal(Seq::filter);
    if keys.len() > 0 {
        let init = keys.drop_last();
        lemma_filtered(init, pred);
        let hits = keys.filter(pred);
        assert forall|key: Seq<u8>| #[trigger] hits.contains(key) <==> keys.contains(key) && pred(key) by {
            lemma_drop_last_contains(keys, key);
            if hits.contains(key) && pred(keys.last()) {
                let i = choose|i: int| 0 <= i < hits.len() && hits[i] == key;
                if i < hits.len() - 1 {
                    assert(init.filter(pred)[i] == key);
                    assert(init.filter(pred).contains(key));
                }
            }
            if keys.contains(key) && pred(key) {
                if key == keys.last() {
                    assert(hits[hits.len() - 1] == key);
                } else {
                    assert(init.filter(pred).contains(key));
                    let i = choose|i: int| 0 <= i < init.filter(pred).len() && init.filter(pred)[i] == key;
                    assert(hits[i] == key);
                }
            }
        }
        assert forall|i: int, j: int| 0 <= i < j < hits.len() implies bytes::before(#[trigger] hits[i], #[trigger] hits[j]) by {
            if pred(keys.last()) && j == hits.len() - 1 {
                assert(init.filter(pred)[i] == hits[i]);
                assert(init.filter(pred).contains(hits[i]));
                let k = choose|k: int| 0 <= k < init.len() && init[k] == hits[i];
                assert(keys[k] == hits[i]);
            } else {
                assert(init.filter(pred)[i] == hits[i]);
                assert(init.filter(pred)[j] == hits[j]);
            }
        }
    }
}

/// The keys under a prefix are keys of the map that begin with it, in order; where they are fewer
/// than the limit, they are all of these.
pub proof fn lemma_under_prefix<V>(map: Map<Seq<u8>, V>, prefix: Seq<u8>, limit: nat)
    requires
        lists(listed(map), map),
    ensures
        ascending(under_prefix(map, prefix, limit)),
        under_prefix(map, prefix, limit).len() <= limit,
        forall|i: int| 0 <= i < under_prefix(map, prefix, limit).len() ==> {
            &&& map.contains_key(#[trigger] under_prefix(map, prefix, limit)[i])
            &&& bytes::starts_with(under_prefix(map, prefix, limit)[i], prefix)
        },
        under_prefix(map, prefix, limit).len() < limit ==> forall|key: Seq<u8>|
            #[trigger] map.contains_key(key) && bytes::starts_with(key, prefix)
                ==> under_prefix(map, prefix, limit).contains(key),
{
    let pred = |key: Seq<u8>| bytes::starts_with(key, prefix);
    let all = listed(map).filter(pred);
    lemma_filtered(listed(map), pred);
    assert forall|i: int| 0 <= i < under_prefix(map, prefix, limit).len() implies map.contains_key(
        #[trigger] under_prefix(map, prefix, limit)[i],
    ) && bytes::starts_with(under_prefix(map, prefix, limit)[i], prefix) by {
        assert(all.contains(all[i]));
        assert(listed(map).contains(all[i]));
    }
    assert forall|key: Seq<u8>| #[trigger]
        map.contains_key(key) && bytes::starts_with(key, prefix) implies all.contains(key) by {
        assert(listed(map).contains(key));
    }
}

/// The keys in a range are keys of the map within it, in order.
pub proof fn lemma_in_range<V>(map: Map<Seq<u8>, V>, start: Seq<u8>, end: Seq<u8>, limit: nat)
    requires
        lists(listed(map), map),
    ensures
        ascending(in_range(map, start, end, limit)),
        in_range(map, start, end, limit).len() <= limit,
        forall|i: int| 0 <= i < in_range(map, start, end, limit).len() ==> {
            &&& map.contains_key(#[trigger] in_range(map, start, end, limit)[i])
            &&& bytes::not_after(start, in_range(map, start, end, limit)[i])
            &&& bytes::not_after(in_range(map, start, end, limit)[i], end)
        },
        in_range(map, start, end, limit).len() < limit ==> forall|key: Seq<u8>|
            #[trigger] map.contains_key(key) && bytes::not_after(start, key) && bytes::not_after(key, end)
                ==> in_range(map, start, end, limit).contains(key),
{
    let pred = |key: Seq<u8>| bytes::not_after(start, key) && bytes::not_after(key, end);
    let all = listed(map).filter(pred);
    lemma_filtered(listed(map), pred);
    assert forall|i: int| 0 <= i < in_range(map, start, end, limit).len() implies map.contains_key(
        #[trigger] in_range(map, start, end, limit)[i],
    ) && bytes::not_after(start, in_range(map, start, end, limit)[i]) && bytes::not_after(
        in_range(map, start, end, limit)[i],
        end,
    ) by {
        assert(all.contains(all[i]));
        assert(listed(map).contains(all[i]));
    }
    assert forall|key: Seq<u8>| #[trigger] map.contains_key(key) && bytes::not_after(start, key) && bytes::not_after(
        key,
        end,
    ) implies all.contains(key) by {
        assert(listed(map).contains(key));
    }
}

/// A key can be put into an ascending list that does not have it.
proof fn lemma_sorted_insert(keys: Seq<Seq<u8>>, key: Seq<u8>) -> (wider: Seq<Seq<u8>>)
    requires
        ascending(keys),
        !keys.contains(key),
    ensures
        ascending(wider),
        forall|k: Seq<u8>| #[trigger] wider.contains(k) <==> keys.contains(k) || k == key,
    decreases keys.len(),
{
    if keys.len() == 0 || bytes::before(keys.last(), key) {
        let wider = keys.push(key);
        assert forall|i: int, j: int| 0 <= i < j < wider.len() implies bytes::before(#[trigger] wider[i], #[trigger] wider[j]) by {
            if j == keys.len() && i < keys.len() - 1 {
                bytes::lemma_before_transitive(keys[i], keys.last(), key);
            }
        }
        assert forall|k: Seq<u8>| #[trigger] wider.contains(k) <==> keys.contains(k) || k == key by {
            if keys.contains(k) {
                let i = choose|i: int| 0 <= i < keys.len() && keys[i] == k;
                assert(wider[i] == k);
            }
            assert(wider[keys.len() as int] == key);
        }
        wider
    } else {
        let last = keys.last();
        let rest = keys.drop_last();
        assert(keys.contains(last));
        bytes::lemma_before_total(last, key);
        assert(bytes::before(key, last));
        lemma_drop_last_contains(keys, key);
        let narrow = lemma_sorted_insert(rest, key);
        let wider = narrow.push(last);
        assert forall|i: int, j: int| 0 <= i < j < wider.len() implies bytes::before(#[trigger] wider[i], #[trigger] wider[j]) by {
            if j == narrow.len() {
                assert(narrow.contains(narrow[i]));
                if narrow[i] != key {
                    assert(rest.contains(narrow[i]));
                    let k = choose|k: int| 0 <= k < rest.len() && rest[k] == narrow[i];
                    assert(keys[k] == narrow[i]);
                }
            }
        }
        assert forall|k: Seq<u8>| #[trigger] wider.contains(k) <==> keys.contains(k) || k == key by {
            lemma_drop_last_contains(keys, k);
            if narrow.contains(k) {
                let i = choose|i: int| 0 <= i < narrow.len() && narrow[i] == k;
                assert(wider[i] == k);
            }
            assert(wider[narrow.len() as int] == last);
        }
        wider
    }
}

proof fn lemma_finite_sorted(keys: Set<Seq<u8>>) -> (list: Seq<Seq<u8>>)
    requires
        keys.finite(),
    ensures
        ascending(list),
        forall|k: Seq<u8>| #[trigger] list.contains(k) <==> keys.contains(k),
    decreases keys.len(),
{
    if keys.len() == 0 {
        assert(keys =~= Set::empty());
        Seq::empty()
    } else {
        let key = keys.choose();
        let rest = lemma_finite_sorted(keys.remove(key));
        lemma_sorted_insert(rest, key)
    }
}

/// A map of finitely many keys can be listed.
pub proof fn lemma_finite_lists<V>(map: Map<Seq<u8>, V>)
    requires
        map.dom().finite(),
    ensures
        lists(listed(map), map),
{
    let list = lemma_finite_sorted(map.dom());
    assert(lists(list, map));
    lemma_listed(list, map);
}

/// Every one of a list of ascending keys stands in it once.
pub proof fn lemma_ascending_distinct(keys: Seq<Seq<u8>>, i: int, j: int)
    requires
        ascending(keys),
        0 <= i < keys.len(),
        0 <= j < keys.len(),
        keys[i] == keys[j],
    ensures
        i == j,
{
    bytes::lemma_before_irreflexive(keys[i]);
}

proof fn lemma_filter_keeps_all(keys: Seq<Seq<u8>>, pred: spec_fn(Seq<u8>) -> bool)
    requires
        forall|i: int| 0 <= i < keys.len() ==> pred(#[trigger] keys[i]),
    ensures
        keys.filter(pred) == keys,
    decreases keys.len(),
{
    reveal(Seq::filter);
    if keys.len() > 0 {
        lemma_filter_keeps_all(keys.drop_last(), pred);
        assert(keys =~= keys.drop_last().push(keys.last()));
    }
}

/// If exactly the keys from `from` to `to` pass the test, or `to - from` of them suffice.
proof fn lemma_filter_block(
    keys: Seq<Seq<u8>>,
    pred: spec_fn(Seq<u8>) -> bool,
    from: int,
    to: int,
    limit: nat,
)
    requires
        0 <= from <= to <= keys.len(),
        forall|i: int| 0 <= i < from ==> !pred(#[trigger] keys[i]),
        forall|i: int| from <= i < to ==> pred(#[trigger] keys[i]),
        to - from <= limit,
        to - from == limit || forall|i: int| to <= i < keys.len() ==> !pred(#[trigger] keys[i]),
    ensures
        first(keys.filter(pred), limit) == keys.subrange(from, to),
{
    let (a, b, c) = (keys.subrange(0, from), keys.subrange(from, to), keys.subrange(to, keys.len() as int));
    assert(keys =~= a + b + c);
    Seq::filter_distributes_over_add(a + b, c, pred);
    Seq::filter_distributes_over_add(a, b, pred);
    a.lemma_all_neg_filter_empty(pred);
    lemma_filter_keeps_all(b, pred);
    assert(a.filter(pred) =~= Seq::empty());
    assert(keys.filter(pred) =~= b + c.filter(pred));
    if to - from != limit {
        c.lemma_all_neg_filter_empty(pred);
        assert(keys.filter(pred) =~= b);
    } else {
        assert((b + c.filter(pred)).take(limit as int) =~= b);
    }
}

/// One filed value.
pub struct Row<T> {
    key: Vec<u8>,
    value: T,
}

/// A column of the store.
pub struct Table<T: View> {
    rows: Vec<Row<T>>,
}

impl<T: View> View for Table<T> {
    type V = Map<Seq<u8>, T::V>;

    closed spec fn view(&self) -> Map<Seq<u8>, T::V> {
        Map::new(
            |key: Seq<u8>| self.keys().contains(key),
            |key: Seq<u8>| self.rows@[self.keys().index_of(key)].value@,
        )
    }
}

impl<T: View> Table<T> {
    closed spec fn keys(&self) -> Seq<Seq<u8>> {
        self.rows@.map_values(|row: Row<T>| row.key@)
    }

    /// The rows stand in key order, one per key.
    pub closed spec fn wf(&self) -> bool {
        ascending(self.keys())
    }

    proof fn lemma_row(&self, i: int)
        requires
            self.wf(),
            0 <= i < self.rows@.len(),
        ensures
            self@.contains_key(self.rows@[i].key@),
            self@[self.rows@[i].key@] == self.rows@[i].value@,
            self.keys()[i] == self.rows@[i].key@,
    {
        let key = self.rows@[i].key@;
        assert(self.keys()[i] == key);
        let at = self.keys().index_of(key);
        assert(0 <= at < self.keys().len() && self.keys()[at] == key);
        bytes::lemma_before_irreflexive(key);
        assert(at == i);
    }

    /// Every row is in the listing, and the listing holds the keys of the column.
    pub proof fn lemma_lists(&self)
        requires
            self.wf(),
        ensures
            lists(listed(self@), self@),
    {
        self.lemma_keys_listed();
    }

    proof fn lemma_keys_listed(&self)
        requires
            self.wf(),
        ensures
            listed(self@) == self.keys(),
            lists(self.keys(), self@),
    {
        assert(lists(self.keys(), self@));
        lemma_listed(self.keys(), self@);
    }

    /// An empty column.
    pub fn new() -> (r: Self)
        ensures
            r.wf(),
            r@ == Map::<Seq<u8>, T::V>::empty(),
    {
        let r = Table { rows: Vec::new() };
        assert(r@ =~= Map::<Seq<u8>, T::V>::empty());
        r
    }

    /// The place of the first row whose key is not before `key`, and whether that is its key.
    fn find(&self, key: &[u8]) -> (r: (usize, bool))
        requires
            self.wf(),
        ensures
            r.0 <= self.rows@.len(),
            forall|i: int| 0 <= i < r.0 ==> bytes::before(#[trigger] self.keys()[i], key@),
            forall|i: int| r.0 <= i < self.rows@.len() ==> bytes::not_after(key@, #[trigger] self.keys()[i]),
            r.1 <==> r.0 < self.rows@.len() && self.keys()[r.0 as int] == key@,
            r.1 <==> self@.contains_key(key@),
    {
        let mut low: usize = 0;
        let mut high: usize = self.rows.len();
        while low < high
            invariant
                self.wf(),
                low <= high <= self.rows@.len(),
                forall|i: int| 0 <= i < low ==> bytes::before(#[trigger] self.keys()[i], key@),
                forall|i: int| high <= i < self.rows@.len() ==> bytes::not_after(key@, #[trigger] self.keys()[i]),
            decreases high - low,
        {
            let middle: usize = low + (high - low) / 2;
            let order = bytes::order(self.rows[middle].key.as_slice(), key);
            assert(self.keys()[middle as int] == self.rows@[middle as int].key@);
            match order {
                Order::Before => {
                    assert forall|i: int| 0 <= i < middle + 1 implies bytes::before(#[trigger] self.keys()[i], key@) by {
                        if i < middle {
                            bytes::lemma_before_transitive(self.keys()[i], self.keys()[middle as int], key@);
                        }
                    }
                    low = middle + 1;
                },
                _ => {
                    assert forall|i: int| middle <= i < self.rows@.len() implies bytes::not_after(key@, #[trigger] self.keys()[i]) by {
                        bytes::lemma_before_total(key@, self.keys()[middle as int]);
                        if i > middle && key@ != self.keys()[middle as int] {
                            bytes::lemma_before_transitive(key@, self.keys()[middle as int], self.keys()[i]);
                        }
                    }
                    high = middle;
                },
            }
        }
        let found = low < self.rows.len() && match bytes::order(self.rows[low].key.as_slice(), key) {
            Order::Same => true,
            _ => false,
        };
        proof {
            if low < self.rows@.len() {
                self.lemma_row(low as int);
            }
            if self@.contains_key(key@) {
                let i = self.keys().index_of(key@);
                assert(0 <= i < self.keys().len() && self.keys()[i] == key@);
                bytes::lemma_before_irreflexive(key@);
                if low < i {
                    assert(bytes::before(self.keys()[low as int], self.keys()[i]));
                    bytes::lemma_before_asymmetric(self.keys()[low as int], self.keys()[i]);
                }
            }
        }
        (low, found)
    }

    /// The value filed under `key`.
    pub fn get(&self, key: &[u8]) -> (r: Option<&T>)
        requires
            self.wf(),
        ensures
            r is Some <==> self@.contains_key(key@),
            r matches Some(value) ==> value@ == self@[key@],
    {
        let (at, found) = self.find(key);
        if found {
            proof {
                self.lemma_row(at as int);
            }
            Some(&self.rows[at].value)
        } else {
            None
        }
    }

    /// Files `value` under `key` in place of what was filed there.
    pub fn put(&mut self, key: Vec<u8>, value: T)
        requires
            old(self).wf(),
        ensures
            final(self).wf(),
            final(self)@ == old(self)@.insert(key@, value@),
    {
        let (at, found) = self.find(key.as_slice());
        let ghost before = *self;
        let ghost filed = key@;
        let ghost content = value@;
        if found {
            self.rows.set(at, Row { key, value });
            proof {
                assert(self.keys() =~= before.keys());
                assert forall|k: Seq<u8>| #[trigger] self@.contains_key(k) <==> before@.insert(filed, content).contains_key(k) by {}
                assert forall|k: Seq<u8>| #[trigger] self@.contains_key(k) implies self@[k] == before@.insert(filed, content)[k] by {
                    let i = self.keys().index_of(k);
                    assert(0 <= i < self.keys().len() && self.keys()[i] == k);
                    self.lemma_row(i);
                    before.lemma_row(i);
                }
                assert(self@ =~= before@.insert(filed, content));
            }
        } else {
            self.rows.insert(at, Row { key, value });
            proof {
                assert(self.keys() =~= before.keys().insert(at as int, filed));
                assert forall|i: int, j: int| 0 <= i < j < self.keys().len() implies bytes::before(#[trigger] self.keys()[i], #[trigger] self.keys()[j]) by {
                    let bi = if i < at { i } else { i - 1 };
                    let bj = if j < at { j } else { j - 1 };
                    if i != at && j != at {
                        assert(self.keys()[i] == before.keys()[bi]);
                        assert(self.keys()[j] == before.keys()[bj]);
                    } else if i == at {
                        assert(self.keys()[j] == before.keys()[bj]);
                        assert(before.keys().contains(before.keys()[bj]));
                    } else {
                        assert(self.keys()[i] == before.keys()[bi]);
                    }
                }
                assert forall|k: Seq<u8>| #[trigger] self@.contains_key(k) <==> before@.insert(filed, content).contains_key(k) by {
                    if before@.contains_key(k) {
                        let i = before.keys().index_of(k);
                        assert(0 <= i < before.keys().len() && before.keys()[i] == k);
                        let n = if i < at { i } else { i + 1 };
                        assert(self.keys()[n] == k);
                    }
                    if k == filed {
                        assert(self.keys()[at as int] == k);
                    }
                    if self.keys().contains(k) && k != filed {
                        let i = self.keys().index_of(k);
                        assert(0 <= i < self.keys().len() && self.keys()[i] == k);
                        let o = if i < at { i } else { i - 1 };
                        assert(before.keys()[o] == k);
                    }
                }
                assert forall|k: Seq<u8>| #[trigger] self@.contains_key(k) implies self@[k] == before@.insert(filed, content)[k] by {
                    let i = self.keys().index_of(k);
                    assert(0 <= i < self.keys().len() && self.keys()[i] == k);
                    self.lemma_row(i);
                    if i != at {
                        let o = if i < at { i } else { i - 1 };
                        before.lemma_row(o);
                        assert(before.keys()[o] == k);
                        if k == filed {
                            assert(before@.contains_key(filed));
                        }
                    }
                }
                assert(self@ =~= before@.insert(filed, content));
            }
        }
    }

    /// Removes what is filed under `key`, if anything is.
    pub fn delete(&mut self, key: &[u8])
        requires
            old(self).wf(),
        ensures
            final(self).wf(),
            final(self)@ == old(self)@.remove(key@),
    {
        let (at, found) = self.find(key);
        let ghost before = *self;
        if found {
            self.rows.remove(at);
            proof {
                assert(self.keys() =~= before.keys().remove(at as int));
                assert forall|i: int, j: int| 0 <= i < j < self.keys().len() implies bytes::before(#[trigger] self.keys()[i], #[trigger] self.keys()[j]) by {
                    let bi = if i < at { i } else { i + 1 };
                    let bj = if j < at { j } else { j + 1 };
                    assert(self.keys()[i] == before.keys()[bi]);
                    assert(self.keys()[j] == before.keys()[bj]);
                }
                bytes::lemma_before_irreflexive(key@);
                assert forall|k: Seq<u8>| #[trigger] self@.contains_key(k) <==> before@.remove(key@).contains_key(k) by {
                    if before@.contains_key(k) && k != key@ {
                        let i = before.keys().index_of(k);
                        assert(0 <= i < before.keys().len() && before.keys()[i] == k);
                        let n = if i < at { i } else { i - 1 };
                        assert(self.keys()[n] == k);
                    }
                    if self.keys().contains(k) {
                        let i = self.keys().index_of(k);
                        assert(0 <= i < self.keys().len() && self.keys()[i] == k);
                        let o = if i < at { i } else { i + 1 };
                        assert(before.keys()[o] == k);
                        assert(o != at);
                        if k == key@ {
                            if o < at {
                                assert(bytes::before(before.keys()[o], before.keys()[at as int]));
                            } else {
                                assert(bytes::before(before.keys()[at as int], before.keys()[o]));
                            }
                        }
                    }
                }
                assert forall|k: Seq<u8>| #[trigger] self@.contains_key(k) implies self@[k] == before@.remove(key@)[k] by {
                    let i = self.keys().index_of(k);
                    assert(0 <= i < self.keys().len() && self.keys()[i] == k);
                    self.lemma_row(i);
                    let o = if i < at { i } else { i + 1 };
                    before.lemma_row(o);
                }
                assert(self@ =~= before@.remove(key@));
            }
        } else {
            assert(self@ =~= before@.remove(key@));
        }
    }

    /// The keys that begin with `prefix`, in key order, at most `limit` of them.
    pub fn prefix_keys(&self, prefix: &[u8], limit: usize) -> (r: Vec<Vec<u8>>)
        requires
            self.wf(),
        ensures
            key_views(r@) == under_prefix(self@, prefix@, limit as nat),
    {
        let (from, _) = self.find(prefix);
        let mut i: usize = from;
        let mut out: Vec<Vec<u8>> = Vec::new();
        while i < self.rows.len() && out.len() < limit && bytes::has_prefix(
            self.rows[i].key.as_slice(),
            prefix,
        )
            invariant
                self.wf(),
                from <= i <= self.rows@.len(),
                i - from <= limit,
                key_views(out@) == self.keys().subrange(from as int, i as int),
                forall|j: int| from <= j < i ==> bytes::starts_with(#[trigger] self.keys()[j], prefix@),
            decreases self.rows@.len() - i,
        {
            assert(self.keys()[i as int] == self.rows@[i as int].key@);
            let key = self.rows[i].key.clone();
            assert(key@ == self.keys()[i as int]);
            let ghost listed_before = key_views(out@);
            out.push(key);
            assert(key_views(out@) =~= listed_before.push(self.keys()[i as int]));
            i += 1;
            assert(key_views(out@) =~= self.keys().subrange(from as int, i as int));
        }
        proof {
            let pred = |key: Seq<u8>| bytes::starts_with(key, prefix@);
            assert(out@.len() == key_views(out@).len());
            self.lemma_keys_listed();
            assert forall|j: int| 0 <= j < from implies !pred(#[trigger] self.keys()[j]) by {
                lemma_prefix_not_after(self.keys()[j], prefix@);
            }
            if out@.len() < limit {
                assert forall|j: int| i <= j < self.keys().len() implies !pred(#[trigger] self.keys()[j]) by {
                    assert(self.keys()[i as int] == self.rows@[i as int].key@);
                    if pred(self.keys()[j]) {
                        bytes::lemma_prefix_between(prefix@, prefix@, self.keys()[i as int], self.keys()[j]);
                    }
                }
            }
            lemma_filter_block(self.keys(), pred, from as int, i as int, limit as nat);
        }
        out
    }

    /// The keys from `start` to `end`, both among them, in key order, at most `limit` of them.
    pub fn range_keys(&self, start: &[u8], end: &[u8], limit: usize) -> (r: Vec<Vec<u8>>)
        requires
            self.wf(),
        ensures
            key_views(r@) == in_range(self@, start@, end@, limit as nat),
    {
        let (from, _) = self.find(start);
        let mut i: usize = from;
        let mut out: Vec<Vec<u8>> = Vec::new();
        while i < self.rows.len() && out.len() < limit && bytes::order(
            self.rows[i].key.as_slice(),
            end,
        ) != Order::After
            invariant
                self.wf(),
                from <= i <= self.rows@.len(),
                i - from <= limit,
                key_views(out@) == self.keys().subrange(from as int, i as int),
                forall|j: int| from <= j < i ==> bytes::not_after(#[trigger] self.keys()[j], end@),
            decreases self.rows@.len() - i,
        {
            assert(self.keys()[i as int] == self.rows@[i as int].key@);
            proof {
                bytes::lemma_before_total(self.keys()[i as int], end@);
            }
            let key = self.rows[i].key.clone();
            assert(key@ == self.keys()[i as int]);
            let ghost listed_before = key_views(out@);
            out.push(key);
            assert(key_views(out@) =~= listed_before.push(self.keys()[i as int]));
            i += 1;
            assert(key_views(out@) =~= self.keys().subrange(from as int, i as int));
        }
        proof {
            let pred = |key: Seq<u8>| bytes::not_after(start@, key) && bytes::not_after(key, end@);
            assert(out@.len() == key_views(out@).len());
            self.lemma_keys_listed();
            assert forall|j: int| 0 <= j < from implies !pred(#[trigger] self.keys()[j]) by {
                bytes::lemma_before_asymmetric(self.keys()[j], start@);
            }
            if out@.len() < limit {
                assert forall|j: int| i <= j < self.keys().len() implies !pred(#[trigger] self.keys()[j]) by {
                    assert(self.keys()[i as int] == self.rows@[i as int].key@);
                    if j > i {
                        bytes::lemma_before_transitive(end@, self.keys()[i as int], self.keys()[j]);
                    }
                    bytes::lemma_before_asymmetric(end@, self.keys()[j]);
                }
            }
            lemma_filter_block(self.keys(), pred, from as int, i as int, limit as nat);
        }
        out
    }

    /// All keys in key order.
    pub fn all_keys(&self) -> (r: Vec<Vec<u8>>)
        requires
            self.wf(),
        ensures
            key_views(r@) == listed(self@),
    {
        let mut i: usize = 0;
        let mut out: Vec<Vec<u8>> = Vec::new();
        while i < self.rows.len()
            invariant
                self.wf(),
                i <= self.rows@.len(),
                key_views(out@) == self.keys().subrange(0, i as int),
            decreases self.rows@.len() - i,
        {
            assert(self.keys()[i as int] == self.rows@[i as int].key@);
            let key = self.rows[i].key.clone();
            assert(key@ == self.keys()[i as int]);
            let ghost listed_before = key_views(out@);
            out.push(key);
            assert(key_views(out@) =~= listed_before.push(self.keys()[i as int]));
            i += 1;
            assert(key_views(out@) =~= self.keys().subrange(0, i as int));
        }
        proof {
            self.lemma_keys_listed();
            assert(self.keys().subrange(0, i as int) =~= self.keys());
        }
        out
    }
}

/// A string with a prefix is not before it.
proof fn lemma_prefix_not_after(key: Seq<u8>, prefix: Seq<u8>)
    requires
        bytes::before(key, prefix),
    ensures
        !bytes::starts_with(key, prefix),
{
    if bytes::starts_with(key, prefix) {
        let at = choose|at: int| bytes::differ_at(key, prefix, at);
        assert(key.take(prefix.len() as int)[at] == key[at]);
    }
}

} // verus!
