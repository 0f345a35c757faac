//! A table keyed by integers and walked in ascending key order: std's ordered map, with the
//! order of its keys brought out as a sequence, so the roster and the stager keep their
//! records in it and every walk over it visits the same keys in the same order on every run.

use vstd::prelude::*;
use std::collections::BTreeMap;
use vstd::std_specs::btree::{axiom_spec_keys_iter, spec_keys_iter};
use vstd::std_specs::iter::IteratorSpec;
use vstd::std_specs::cmp::OrdSpec;

verus! {

broadcast use {vstd::std_specs::btree::group_btree_axioms, vstd::laws_cmp::group_laws_cmp};

/// Whether the keys strictly increase.
pub open spec fn ascending(keys: Seq<u64>) -> bool {
    forall|i: int, j: int| 0 <= i < j < keys.len() ==> #[trigger] keys[i] < #[trigger] keys[j]
}

/// Two ascending runs of the same keys are one run.
pub proof fn lemma_ascending_unique(a: Seq<u64>, b: Seq<u64>)
    requires
        ascending(a),
        ascending(b),
        forall|k: u64| a.contains(k) <==> b.contains(k),
    ensures
        a == b,
    decreases a.len(),
{
    if a.len() == 0 {
        if b.len() > 0 {
            assert(b.contains(b[0]));
        }
        assert(a =~= b);
    } else if b.len() == 0 {
        assert(a.contains(a[0]));
    } else {
        assert(a.contains(a[0]));
        assert(b.contains(b[0]));
        let i = choose|i: int| 0 <= i < b.len() && b[i] == a[0];
        let j = choose|j: int| 0 <= j < a.len() && a[j] == b[0];
        if i > 0 { assert(b[0] < b[i]); }
        if j > 0 { assert(a[0] < a[j]); }
        assert(a[0] == b[0]);
        let (ta, tb) = (a.drop_first(), b.drop_first());
        assert forall|k: u64| ta.contains(k) <==> tb.contains(k) by {
            if ta.contains(k) {
                let x = choose|x: int| 0 <= x < ta.len() && ta[x] == k;
                assert(a[0] < a[x + 1]);
                assert(a.contains(k));
                let y = choose|y: int| 0 <= y < b.len() && b[y] == k;
                assert(y != 0);
                assert(tb[y - 1] == k);
            }
            if tb.contains(k) {
                let x = choose|x: int| 0 <= x < tb.len() && tb[x] == k;
                assert(b[0] < b[x + 1]);
                assert(b.contains(k));
                let y = choose|y: int| 0 <= y < a.len() && a[y] == k;
                assert(y != 0);
                assert(ta[y - 1] == k);
            }
        }
        lemma_ascending_unique(ta, tb);
        assert(a =~= seq![a[0]] + ta);
        assert(b =~= seq![b[0]] + tb);
    }
}

/// The order keys are walked in.
pub open spec fn key_order() -> spec_fn(u64, u64) -> bool {
    |a: u64, b: u64| a <= b
}

/// A finite set's elements listed once each.
proof fn lemma_to_seq_unique(s: Set<u64>)
    requires
        s.finite(),
    ensures
        s.to_seq().no_duplicates(),
        s.to_seq().len() == s.len(),
    decreases s.len(),
{
    if s.len() > 0 {
        let x = s.choose();
        assert(s.contains(x));
        let rest = s.remove(x);
        lemma_to_seq_unique(rest);
        rest.lemma_to_seq_to_set_id();
        let tail = rest.to_seq();
        assert(s.to_seq() == Seq::<u64>::empty().push(x) + tail);
        assert(!tail.contains(x)) by {
            if tail.contains(x) {
                assert(tail.to_set().contains(x));
            }
        }
        let whole = Seq::<u64>::empty().push(x) + tail;
        assert forall|i: int, j: int| 0 <= i < whole.len() && 0 <= j < whole.len() && i != j
            implies whole[i] != whole[j] by {
            if i == 0 { assert(whole[j] == tail[j - 1]); }
            else if j == 0 { assert(whole[i] == tail[i - 1]); }
            else { assert(whole[i] == tail[i - 1] && whole[j] == tail[j - 1]); }
        }
    }
}

/// A finite set of keys in ascending order: each once, and no other.
pub proof fn lemma_sorted_keys(dom: Set<u64>)
    requires
        dom.finite(),
    ensures
        ascending(dom.to_sorted_seq(key_order())),
        forall|k: u64| dom.contains(k) <==> dom.to_sorted_seq(key_order()).contains(k),
        dom.to_sorted_seq(key_order()).len() == dom.len(),
{
    broadcast use vstd::seq_lib::group_to_multiset_ensures;
    let leq = key_order();
    let t = dom.to_seq();
    let s = dom.to_sorted_seq(leq);
    assert(s == t.sort_by(leq));
    assert(vstd::relations::total_ordering(leq));
    t.lemma_sort_by_ensures(leq);
    lemma_to_seq_unique(dom);
    dom.lemma_to_seq_to_set_id();
    t.lemma_multiset_has_no_duplicates();
    s.lemma_multiset_has_no_duplicates_conv();
    assert forall|k: u64| dom.contains(k) <==> s.contains(k) by {
        assert(t.to_set().contains(k) <==> t.contains(k));
        assert(t.contains(k) <==> t.to_multiset().count(k) > 0);
        assert(s.contains(k) <==> s.to_multiset().count(k) > 0);
    }
    assert forall|i: int, j: int| 0 <= i < j < s.len() implies #[trigger] s[i] < #[trigger] s[j] by {
        assert(leq(s[i], s[j]));
        assert(s[i] != s[j]);
    }
    assert(s.len() == s.to_multiset().len());
    assert(t.len() == t.to_multiset().len());
}

/// A map keyed by integers, walked in ascending key order.
pub struct Table<V> {
    map: BTreeMap<u64, V>,
}

impl<V> View for Table<V> {
    type V = Map<u64, V>;

    closed spec fn view(&self) -> Map<u64, V> {
        self.map@
    }
}

impl<V> Table<V> {
    /// The table's own invariant: the map's keys are finitely many.
    pub closed spec fn wf(&self) -> bool {
        self.map@.dom().finite()
    }

    /// The keys in the order every walk visits them: ascending.
    pub closed spec fn keys(&self) -> Seq<u64> {
        self.map@.dom().to_sorted_seq(key_order())
    }

    /// What the order of the keys is: ascending, each key of the map once, and no other.
    pub proof fn lemma_wf(&self)
        requires
            self.wf(),
        ensures
            ascending(self.keys()),
            forall|i: int, j: int| 0 <= i < j < self.keys().len() ==> #[trigger] self.keys()[i] < #[trigger] self.keys()[j],
            forall|k: u64| self@.contains_key(k) <==> self.keys().contains(k),
            forall|i: int| 0 <= i < self.keys().len() ==> self@.contains_key(#[trigger] self.keys()[i]),
            self@.dom().finite(),
            self@.len() == self.keys().len(),
    {
        lemma_sorted_keys(self.map@.dom());
        assert forall|i: int| 0 <= i < self.keys().len() implies self@.contains_key(#[trigger] self.keys()[i]) by {
            assert(self.keys().contains(self.keys()[i]));
        }
    }

    /// A walk over the map's keys visits them in the table's order.
    proof fn lemma_walk(&self)
        requires
            self.wf(),
        ensures
            spec_keys_iter(&self.map).remaining().unref() == self.keys(),
    {
        self.lemma_wf();
        axiom_spec_keys_iter(&self.map);
        let r = spec_keys_iter(&self.map).remaining();
        assert(vstd::laws_cmp::obeys_cmp::<&u64>());
        assert forall|i: int, j: int| 0 <= i < j < r.unref().len() implies #[trigger] r.unref()[i] < #[trigger] r.unref()[j] by {
            assert(OrdSpec::cmp_spec(&r[i], &r[j]) is Less);
        }
        assert forall|k: u64| r.unref().contains(k) <==> self.keys().contains(k) by {
            assert(r.unref().to_set().contains(k) <==> r.unref().contains(k));
        }
        lemma_ascending_unique(r.unref(), self.keys());
    }

    /// An empty table.
    pub fn new() -> (table: Table<V>)
        ensures
            table.wf(),
            table@ == Map::<u64, V>::empty(),
            table.keys() == Seq::<u64>::empty(),
    {
        let table = Table { map: BTreeMap::new() };
        proof {
            table.lemma_wf();
            assert(table.keys() =~= Seq::<u64>::empty());
        }
        table
    }

    /// How many keys the table holds.
    pub fn len(&self) -> (n: usize)
        requires
            self.wf(),
        ensures
            n == self@.len(),
            n == self.keys().len(),
    {
        proof { self.lemma_wf(); }
        self.map.len()
    }

    /// The key at `position` in ascending order.
    pub fn key_at(&self, position: usize) -> (k: u64)
        requires
            self.wf(),
            position < self.keys().len(),
        ensures
            k == self.keys()[position as int],
    {
        proof { self.lemma_walk(); }
        let ghost s = self.keys();
        let mut count: usize = 0;
        for key in it: self.map.keys()
            invariant
                s == self.keys(),
                s == it.seq().unref(),
                count == it.index(),
                count <= position,
                position < s.len(),
        {
            if count == position {
                assert(*key == s[count as int]);
                return *key;
            }
            count += 1;
        }
        proof { assert(false); }
        0
    }

    /// The value at the key at `position`.
    pub fn value_at(&self, position: usize) -> (v: &V)
        requires
            self.wf(),
            position < self.keys().len(),
        ensures
            self@.contains_key(self.keys()[position as int]),
            *v == self@[self.keys()[position as int]],
    {
        proof { self.lemma_wf(); }
        let k = self.key_at(position);
        proof { assert(self.keys().contains(k)); }
        let found = self.map.get(&k);
        proof { assert(found is Some); }
        found.unwrap()
    }

    /// Where `k` stands in ascending order, if the table holds it.
    pub fn position_of(&self, k: u64) -> (found: Option<usize>)
        requires
            self.wf(),
        ensures
            found is None <==> !self@.contains_key(k),
            found matches Some(i) ==> i < self.keys().len() && self.keys()[i as int] == k,
    {
        proof { self.lemma_wf(); self.lemma_walk(); }
        let n = self.map.len();
        let ghost s = self.keys();
        let mut count: usize = 0;
        for key in it: self.map.keys()
            invariant
                s == self.keys(),
                s == it.seq().unref(),
                count == it.index(),
                count <= s.len(),
                s.len() == n,
                forall|j: int| 0 <= j < count ==> #[trigger] s[j] != k,
        {
            if *key == k {
                return Some(count);
            }
            count += 1;
        }
        proof {
            assert(!s.contains(k));
        }
        None
    }

    /// The value at `k`, if the table holds one.
    pub fn get(&self, k: u64) -> (v: Option<&V>)
        requires
            self.wf(),
        ensures
            v is None <==> !self@.contains_key(k),
            v matches Some(r) ==> *r == self@[k],
    {
        self.map.get(&k)
    }

    /// Whether the table holds `k`.
    pub fn contains(&self, k: u64) -> (b: bool)
        requires
            self.wf(),
        ensures
            b == self@.contains_key(k),
    {
        self.map.contains_key(&k)
    }

    /// Set `k` to `v`: the value at `k` replaced, or a new key in its ascending place.
    pub fn insert(&mut self, k: u64, v: V)
        requires
            old(self).wf(),
        ensures
            final(self).wf(),
            final(self)@ == old(self)@.insert(k, v),
            old(self)@.contains_key(k) ==> final(self).keys() == old(self).keys(),
            !old(self)@.contains_key(k) ==> final(self).keys().to_set() == old(self).keys().to_set().insert(k),
    {
        proof { old(self).lemma_wf(); }
        self.map.insert(k, v);
        proof {
            self.lemma_wf();
            if old(self)@.contains_key(k) {
                lemma_ascending_unique(self.keys(), old(self).keys());
            } else {
                assert(self.keys().to_set() =~= old(self).keys().to_set().insert(k));
            }
        }
    }

    /// Take out the key at `position`, with its value; the rest keep their order.
    pub fn remove_at(&mut self, position: usize) -> (row: (u64, V))
        requires
            old(self).wf(),
            position < old(self).keys().len(),
        ensures
            final(self).wf(),
            row.0 == old(self).keys()[position as int],
            old(self)@.contains_key(row.0),
            row.1 == old(self)@[row.0],
            final(self)@ == old(self)@.remove(row.0),
            final(self).keys() == old(self).keys().remove(position as int),
            position > 0 ==> final(self).keys()[position - 1] < row.0,
            position < final(self).keys().len() ==> row.0 < final(self).keys()[position as int],
    {
        proof { old(self).lemma_wf(); }
        let k = self.key_at(position);
        proof { assert(old(self).keys().contains(k)); }
        let removed = self.map.remove(&k);
        proof { assert(removed is Some); }
        let v = removed.unwrap();
        {
            {
                proof {
                    self.lemma_wf();
                    let before = old(self).keys();
                    let expected = before.remove(position as int);
                    assert(ascending(expected)) by {
                        assert forall|a: int, b: int| 0 <= a < b < expected.len() implies #[trigger] expected[a] < #[trigger] expected[b] by {
                            if b < position { assert(before[a] < before[b]); }
                            else if a < position { assert(before[a] < before[b + 1]); }
                            else { assert(before[a + 1] < before[b + 1]); }
                        }
                    }
                    assert forall|key: u64| self.keys().contains(key) <==> expected.contains(key) by {
                        if expected.contains(key) {
                            let j = choose|j: int| 0 <= j < expected.len() && expected[j] == key;
                            if j < position {
                                assert(before[j] == key);
                                assert(before[j] < before[position as int]);
                            } else {
                                assert(before[j + 1] == key);
                                assert(before[position as int] < before[j + 1]);
                            }
                            assert(before.contains(key));
                        }
                        if self.keys().contains(key) {
                            assert(before.contains(key));
                            let j = choose|j: int| 0 <= j < before.len() && before[j] == key;
                            assert(j != position);
                            if j < position { assert(expected[j] == key); } else { assert(expected[j - 1] == key); }
                        }
                    }
                    lemma_ascending_unique(self.keys(), expected);
                    if position > 0 { assert(before[position - 1] < before[position as int]); }
                    if position < expected.len() { assert(before[position as int] < before[position + 1]); }
                }
            }
        }
        (k, v)
    }

    /// Take out the value at `k`, if the table holds one.
    pub fn remove(&mut self, k: u64) -> (v: Option<V>)
        requires
            old(self).wf(),
        ensures
            final(self).wf(),
            final(self)@ == old(self)@.remove(k),
            v is None <==> !old(self)@.contains_key(k),
            v matches Some(x) ==> x == old(self)@[k],
            forall|key: u64| final(self).keys().contains(key) <==> old(self).keys().contains(key) && key != k,
    {
        proof { old(self).lemma_wf(); }
        let v = self.map.remove(&k);
        proof {
            self.lemma_wf();
            if v is None {
                assert(self@ =~= old(self)@);
            }
        }
        v
    }

    /// Forget every key that lies below `k`, with its value: ascending, they are a prefix.
    pub fn drop_below(&mut self, k: u64)
        requires
            old(self).wf(),
        ensures
            final(self).wf(),
            final(self)@ == old(self)@.restrict(old(self)@.dom().filter(|t: u64| t >= k)),
    {
        let ghost before = self@;
        proof { self.lemma_wf(); }
        while self.len() > 0 && self.key_at(0) < k
            invariant
                self.wf(),
                forall|t: u64| #[trigger] self@.contains_key(t) ==> before.contains_key(t) && self@[t] == before[t],
                forall|t: u64| #[trigger] before.contains_key(t) && t >= k ==> self@.contains_key(t),
            decreases self@.len(),
        {
            proof { self.lemma_wf(); }
            let ghost pre = self@;
            let row = self.remove_at(0);
            proof {
                self.lemma_wf();
                assert forall|t: u64| #[trigger] before.contains_key(t) && t >= k implies self@.contains_key(t) by {
                    assert(pre.contains_key(t));
                    assert(t != row.0);
                }
            }
        }
        proof {
            self.lemma_wf();
            assert forall|t: u64| #[trigger] self@.contains_key(t) implies t >= k by {
                assert(self.keys().contains(t));
                let i = choose|i: int| 0 <= i < self.keys().len() && self.keys()[i] == t;
                if i > 0 { assert(self.keys()[0] < self.keys()[i]); }
            }
            assert(self@ =~= before.restrict(before.dom().filter(|t: u64| t >= k)));
        }
    }

    /// Put a key back at `position`, where it keeps the order, with its value.
    pub fn put_back(&mut self, position: usize, k: u64, v: V)
        requires
            old(self).wf(),
            position <= old(self).keys().len(),
            position > 0 ==> old(self).keys()[position - 1] < k,
            position < old(self).keys().len() ==> k < old(self).keys()[position as int],
        ensures
            final(self).wf(),
            final(self)@ == old(self)@.insert(k, v),
            final(self).keys() == old(self).keys().insert(position as int, k),
    {
        proof { old(self).lemma_wf(); }
        let ghost before = old(self).keys();
        let ghost i = position as int;
        proof {
            assert forall|j: int| i <= j < before.len() implies k < #[trigger] before[j] by {
                if j > i { assert(before[i] < before[j]); }
            }
            assert forall|j: int| 0 <= j < i implies #[trigger] before[j] < k by {
                if j < i - 1 { assert(before[j] < before[i - 1]); }
            }
        }
        self.map.insert(k, v);
        proof {
            self.lemma_wf();
            let expected = before.insert(i, k);
            assert(ascending(expected)) by {
                assert forall|a: int, b: int| 0 <= a < b < expected.len() implies #[trigger] expected[a] < #[trigger] expected[b] by {
                    if b < i { assert(before[a] < before[b]); }
                    else if a < i && b == i {}
                    else if a < i { assert(expected[b] == before[b - 1]); }
                    else if a == i { assert(expected[b] == before[b - 1]); }
                    else { assert(before[a - 1] < before[b - 1]); }
                }
            }
            assert forall|key: u64| self.keys().contains(key) <==> expected.contains(key) by {
                if expected.contains(key) {
                    let j = choose|j: int| 0 <= j < expected.len() && expected[j] == key;
                    if j < i { assert(before[j] == key); assert(before.contains(key)); }
                    else if j > i { assert(before[j - 1] == key); assert(before.contains(key)); }
                }
                if self.keys().contains(key) && key != k {
                    assert(before.contains(key));
                    let j = choose|j: int| 0 <= j < before.len() && before[j] == key;
                    if j < i { assert(expected[j] == key); } else { assert(expected[j + 1] == key); }
                }
                if key == k { assert(expected[i] == k); }
            }
            lemma_ascending_unique(self.keys(), expected);
        }
    }
}

} // verus!
