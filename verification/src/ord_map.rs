//! A map from 64-bit keys to copyable values, kept in increasing order of the keys.
use vstd::prelude::*;

verus! {

/// Whether the keys increase strictly along the entries.
pub open spec fn sorted_entries<V>(s: Seq<(u64, V)>) -> bool {
    forall|i: int, j: int| #![trigger s[i], s[j]] 0 <= i < j < s.len() ==> s[i].0 < s[j].0
}

pub open spec fn has_key<V>(s: Seq<(u64, V)>, k: u64) -> bool {
    exists|i: int| 0 <= i < s.len() && (#[trigger] s[i]).0 == k
}

/// The map that a sequence of entries stands for.
pub open spec fn entries_map<V>(s: Seq<(u64, V)>) -> Map<u64, V> {
    Map::new(
        |k: u64| has_key(s, k),
        |k: u64| s[choose|i: int| 0 <= i < s.len() && (#[trigger] s[i]).0 == k].1,
    )
}

/// Every entry is an association of the map.
pub proof fn lemma_entry<V>(s: Seq<(u64, V)>, i: int)
    requires sorted_entries(s), 0 <= i < s.len(),
    ensures
        entries_map(s).contains_key(s[i].0),
        entries_map(s)[s[i].0] == s[i].1,
{
    let k = s[i].0;
    assert(has_key(s, k));
    let j = choose|j: int| 0 <= j < s.len() && (#[trigger] s[j]).0 == k;
    if i < j {
        assert(s[i].0 < s[j].0);
    } else if j < i {
        assert(s[j].0 < s[i].0);
    }
}

/// A key of the map is the key of some entry.
pub proof fn lemma_key<V>(s: Seq<(u64, V)>, k: u64) -> (i: int)
    requires sorted_entries(s), entries_map(s).contains_key(k),
    ensures 0 <= i < s.len(), s[i].0 == k, entries_map(s)[k] == s[i].1,
{
    let i = choose|i: int| 0 <= i < s.len() && (#[trigger] s[i]).0 == k;
    i
}

proof fn lemma_insert_entry<V>(s: Seq<(u64, V)>, p: int, k: u64, v: V)
    requires
        sorted_entries(s),
        0 <= p <= s.len(),
        forall|j: int| 0 <= j < p ==> (#[trigger] s[j]).0 < k,
        forall|j: int| p <= j < s.len() ==> (#[trigger] s[j]).0 > k,
    ensures
        sorted_entries(s.insert(p, (k, v))),
        entries_map(s.insert(p, (k, v))) == entries_map(s).insert(k, v),
{
    let t = s.insert(p, (k, v));
    assert forall|i: int, j: int| #![trigger t[i], t[j]] 0 <= i < j < t.len() implies t[i].0 < t[j].0 by {
        let a = if i < p { i } else { i - 1 };
        let b = if j < p { j } else { j - 1 };
        if i != p { assert(t[i] == s[a]); }
        if j != p { assert(t[j] == s[b]); }
    }
    assert(t[p] == (k, v));
    assert forall|q: u64| has_key(t, q) == (q == k || has_key(s, q)) by {
        if has_key(t, q) && q != k {
            let i = choose|i: int| 0 <= i < t.len() && (#[trigger] t[i]).0 == q;
            let a = if i < p { i } else { i - 1 };
            assert(t[i] == s[a]);
        }
        if has_key(s, q) {
            let i = choose|i: int| 0 <= i < s.len() && (#[trigger] s[i]).0 == q;
            let a = if i < p { i } else { i + 1 };
            assert(t[a] == s[i]);
        }
    }
    assert forall|q: u64| has_key(t, q) implies entries_map(t)[q] == entries_map(s).insert(k, v)[q] by {
        if q == k {
            lemma_entry(t, p);
        } else {
            let i = lemma_key(s, q);
            let a = if i < p { i } else { i + 1 };
            assert(t[a] == s[i]);
            lemma_entry(t, a);
        }
    }
    assert(entries_map(t) =~= entries_map(s).insert(k, v));
}

proof fn lemma_update_entry<V>(s: Seq<(u64, V)>, p: int, k: u64, v: V)
    requires sorted_entries(s), 0 <= p < s.len(), s[p].0 == k,
    ensures
        sorted_entries(s.update(p, (k, v))),
        entries_map(s.update(p, (k, v))) == entries_map(s).insert(k, v),
{
    let t = s.update(p, (k, v));
    assert forall|i: int, j: int| #![trigger t[i], t[j]] 0 <= i < j < t.len() implies t[i].0 < t[j].0 by {
        assert(s[i].0 < s[j].0);
    }
    assert forall|q: u64| has_key(t, q) == has_key(s, q) by {
        if has_key(t, q) {
            let i = choose|i: int| 0 <= i < t.len() && (#[trigger] t[i]).0 == q;
            assert(s[i].0 == q);
        }
        if has_key(s, q) {
            let i = choose|i: int| 0 <= i < s.len() && (#[trigger] s[i]).0 == q;
            assert(t[i].0 == q);
        }
    }
    assert(has_key(s, k));
    assert forall|q: u64| has_key(t, q) implies entries_map(t)[q] == entries_map(s).insert(k, v)[q] by {
        if q == k {
            lemma_entry(t, p);
        } else {
            let i = lemma_key(s, q);
            assert(t[i] == s[i]);
            lemma_entry(t, i);
        }
    }
    assert(entries_map(t) =~= entries_map(s).insert(k, v));
}

proof fn lemma_remove_entry<V>(s: Seq<(u64, V)>, p: int, k: u64)
    requires sorted_entries(s), 0 <= p < s.len(), s[p].0 == k,
    ensures
        sorted_entries(s.remove(p)),
        entries_map(s.remove(p)) == entries_map(s).remove(k),
{
    let t = s.remove(p);
    assert forall|i: int, j: int| #![trigger t[i], t[j]] 0 <= i < j < t.len() implies t[i].0 < t[j].0 by {
        let a = if i < p { i } else { i + 1 };
        let b = if j < p { j } else { j + 1 };
        assert(t[i] == s[a]);
        assert(t[j] == s[b]);
    }
    assert forall|q: u64| has_key(t, q) == (q != k && has_key(s, q)) by {
        if has_key(t, q) {
            let i = choose|i: int| 0 <= i < t.len() && (#[trigger] t[i]).0 == q;
            let a = if i < p { i } else { i + 1 };
            assert(t[i] == s[a]);
            if a < p { assert(s[a].0 < s[p].0); } else { assert(s[p].0 < s[a].0); }
        }
        if q != k && has_key(s, q) {
            let i = choose|i: int| 0 <= i < s.len() && (#[trigger] s[i]).0 == q;
            let a = if i < p { i } else { i - 1 };
            assert(t[a] == s[i]);
        }
    }
    assert forall|q: u64| has_key(t, q) implies entries_map(t)[q] == entries_map(s).remove(k)[q] by {
        let i = lemma_key(s, q);
        let a = if i < p { i } else { i - 1 };
        assert(t[a] == s[i]);
        lemma_entry(t, a);
    }
    assert(entries_map(t) =~= entries_map(s).remove(k));
}

/// The map of sorted entries has as many keys as there are entries.
pub proof fn lemma_entries_count<V>(s: Seq<(u64, V)>)
    requires sorted_entries(s),
    ensures entries_map(s).dom().finite(), entries_map(s).dom().len() == s.len(),
    decreases s.len(),
{
    let m = entries_map(s);
    if s.len() == 0 {
        assert(m.dom() =~= Set::<u64>::empty());
    } else {
        let t = s.drop_last();
        let last = s.last();
        assert(sorted_entries(t)) by {
            assert forall|i: int, j: int| 0 <= i < j < t.len() implies t[i].0 < t[j].0 by { assert(s[i].0 < s[j].0); }
        }
        lemma_entries_count(t);
        assert(!has_key(t, last.0)) by {
            assert forall|i: int| 0 <= i < t.len() implies t[i].0 != last.0 by { assert(s[i].0 < s[s.len() - 1].0); }
        }
        assert forall|k: u64| m.dom().contains(k) == entries_map(t).dom().insert(last.0).contains(k) by {
            if has_key(s, k) {
                let i = lemma_key(s, k);
                if i < t.len() { assert(t[i].0 == k); }
            }
            if has_key(t, k) {
                let i = lemma_key(t, k);
                assert(s[i].0 == k);
            }
            assert(s[s.len() - 1].0 == last.0);
        }
        assert(m.dom() =~= entries_map(t).dom().insert(last.0));
    }
}

/// Equal maps have equal sorted entries.
pub proof fn lemma_entries_unique<V>(s: Seq<(u64, V)>, t: Seq<(u64, V)>)
    requires sorted_entries(s), sorted_entries(t), entries_map(s) == entries_map(t),
    ensures s == t,
    decreases s.len(),
{
    if s.len() == 0 {
        if t.len() > 0 {
            lemma_entry(t, 0);
            assert(!has_key(s, t[0].0));
        }
        assert(s =~= t);
    } else {
        lemma_entry(s, 0);
        let i = lemma_key(t, s[0].0);
        lemma_entry(t, 0);
        let j = lemma_key(s, t[0].0);
        if i > 0 { assert(t[0].0 < t[i].0); }
        if j > 0 { assert(s[0].0 < s[j].0); }
        assert(s[0].0 == t[0].0);
        assert(s[0] == t[0]);
        lemma_remove_entry(s, 0, s[0].0);
        lemma_remove_entry(t, 0, t[0].0);
        lemma_entries_unique(s.remove(0), t.remove(0));
        assert(s =~= seq![s[0]] + s.remove(0));
        assert(t =~= seq![t[0]] + t.remove(0));
    }
}

/// Sum of `f` over the entries.
pub open spec fn entry_sum<V>(s: Seq<(u64, V)>, f: spec_fn(u64, V) -> int) -> int
    decreases s.len(),
{
    if s.len() == 0 {
        0
    } else {
        entry_sum(s.drop_last(), f) + f(s.last().0, s.last().1)
    }
}

proof fn lemma_sum_insert_at<V>(s: Seq<(u64, V)>, p: int, x: (u64, V), f: spec_fn(u64, V) -> int)
    requires 0 <= p <= s.len(),
    ensures entry_sum(s.insert(p, x), f) == entry_sum(s, f) + f(x.0, x.1),
    decreases s.len(),
{
    let t = s.insert(p, x);
    if p == s.len() {
        assert(t.drop_last() =~= s);
        assert(t.last() == x);
    } else {
        lemma_sum_insert_at(s.drop_last(), p, x, f);
        assert(t.drop_last() =~= s.drop_last().insert(p, x));
        assert(t.last() == s.last());
    }
}

/// Inserting an association changes a sum by the new term less the replaced one.
pub proof fn lemma_sum_insert<V>(s: Seq<(u64, V)>, t: Seq<(u64, V)>, k: u64, v: V, f: spec_fn(u64, V) -> int)
    requires
        sorted_entries(s),
        sorted_entries(t),
        entries_map(t) == entries_map(s).insert(k, v),
    ensures
        entry_sum(t, f) == entry_sum(s, f) + f(k, v)
            - (if entries_map(s).contains_key(k) { f(k, entries_map(s)[k]) } else { 0 }),
{
    if entries_map(s).contains_key(k) {
        let p = lemma_key(s, k);
        lemma_remove_entry(s, p, k);
        lemma_sum_insert_at(s.remove(p), p, s[p], f);
        assert(s.remove(p).insert(p, s[p]) =~= s);
        lemma_update_entry(s, p, k, v);
        lemma_entries_unique(t, s.update(p, (k, v)));
        assert(t =~= s.remove(p).insert(p, (k, v)));
        lemma_sum_insert_at(s.remove(p), p, (k, v), f);
    } else {
        assert(entries_map(t).contains_key(k));
        let p = lemma_key(t, k);
        lemma_remove_entry(t, p, k);
        assert(entries_map(s).insert(k, v).remove(k) =~= entries_map(s));
        lemma_entries_unique(t.remove(p), s);
        assert(t =~= s.insert(p, t[p]));
        lemma_sum_insert_at(s, p, t[p], f);
    }
}

/// Removing a key takes its term out of a sum.
pub proof fn lemma_sum_remove<V>(s: Seq<(u64, V)>, t: Seq<(u64, V)>, k: u64, f: spec_fn(u64, V) -> int)
    requires
        sorted_entries(s),
        sorted_entries(t),
        entries_map(t) == entries_map(s).remove(k),
    ensures
        entry_sum(t, f) == entry_sum(s, f)
            - (if entries_map(s).contains_key(k) { f(k, entries_map(s)[k]) } else { 0 }),
{
    if entries_map(s).contains_key(k) {
        let p = lemma_key(s, k);
        lemma_remove_entry(s, p, k);
        lemma_entries_unique(t, s.remove(p));
        lemma_sum_insert_at(s.remove(p), p, s[p], f);
        assert(s.remove(p).insert(p, s[p]) =~= s);
    } else {
        assert(entries_map(s).remove(k) =~= entries_map(s));
        lemma_entries_unique(t, s);
    }
}

/// An ordered map.
#[derive(Debug)]
pub struct OrdMap<V> {
    items: Vec<(u64, V)>,
}

impl<V> View for OrdMap<V> {
    type V = Map<u64, V>;

    closed spec fn view(&self) -> Map<u64, V> {
        entries_map(self.items@)
    }
}

impl<V> OrdMap<V> {
    #[verifier::type_invariant]
    spec fn inv(self) -> bool {
        sorted_entries(self.items@)
    }

    /// The entries in increasing order of the keys.
    pub closed spec fn entries(&self) -> Seq<(u64, V)> {
        self.items@
    }
}

impl<V: Copy> OrdMap<V> {

    /// The entries are sorted and stand for the map.
    pub fn reveal_entries(&self)
        ensures
            sorted_entries(self.entries()),
            self@ == entries_map(self.entries()),
    {
        proof { use_type_invariant(self); }
    }

    pub fn new() -> (r: Self)
        ensures r@ == Map::<u64, V>::empty(), r.entries().len() == 0,
    {
        let r = OrdMap { items: Vec::new() };
        assert(entries_map(r.items@) =~= Map::<u64, V>::empty());
        r
    }

    pub fn len(&self) -> (n: usize)
        ensures
            n == self.entries().len(),
            sorted_entries(self.entries()),
            self@ == entries_map(self.entries()),
    {
        proof { use_type_invariant(self); }
        self.items.len()
    }

    pub fn key_at(&self, i: usize) -> (k: u64)
        requires i < self.entries().len(),
        ensures
            k == self.entries()[i as int].0,
            self@.contains_key(k),
            self@[k] == self.entries()[i as int].1,
    {
        proof {
            use_type_invariant(self);
            lemma_entry(self.items@, i as int);
        }
        self.items[i].0
    }

    pub fn value_at(&self, i: usize) -> (v: V)
        requires i < self.entries().len(),
        ensures
            v == self.entries()[i as int].1,
    {
        self.items[i].1
    }

    /// First position whose key is not below `k`.
    fn position(&self, k: u64) -> (p: usize)
        ensures
            p <= self.items@.len(),
            forall|j: int| 0 <= j < p ==> (#[trigger] self.items@[j]).0 < k,
            forall|j: int| p <= j < self.items@.len() ==> (#[trigger] self.items@[j]).0 >= k,
    {
        proof { use_type_invariant(self); }
        let mut lo: usize = 0;
        let mut hi: usize = self.items.len();
        while lo < hi
            invariant
                lo <= hi <= self.items@.len(),
                sorted_entries(self.items@),
                forall|j: int| 0 <= j < lo ==> (#[trigger] self.items@[j]).0 < k,
                forall|j: int| hi <= j < self.items@.len() ==> (#[trigger] self.items@[j]).0 >= k,
            decreases hi - lo,
        {
            let mid: usize = lo + (hi - lo) / 2;
            if self.items[mid].0 < k {
                assert forall|j: int| 0 <= j < mid + 1 implies (#[trigger] self.items@[j]).0 < k by {
                    if j < mid { assert(self.items@[j].0 < self.items@[mid as int].0); }
                }
                lo = mid + 1;
            } else {
                assert forall|j: int| mid <= j < self.items@.len() implies (#[trigger] self.items@[j]).0 >= k by {
                    if mid < j { assert(self.items@[mid as int].0 < self.items@[j].0); }
                }
                hi = mid;
            }
        }
        lo
    }

    pub fn get(&self, k: u64) -> (r: Option<V>)
        ensures r == (if self@.contains_key(k) { Some(self@[k]) } else { None }),
    {
        proof { use_type_invariant(self); }
        let p: usize = self.position(k);
        if p < self.items.len() && self.items[p].0 == k {
            proof { lemma_entry(self.items@, p as int); }
            Some(self.items[p].1)
        } else {
            proof {
                if self@.contains_key(k) {
                    let i = lemma_key(self.items@, k);
                    if p < self.items@.len() && i > p { assert(self.items@[p as int].0 < self.items@[i].0); }
                }
            }
            None
        }
    }

    pub fn contains_key(&self, k: u64) -> (r: bool)
        ensures r == self@.contains_key(k),
    {
        self.get(k).is_some()
    }

    pub fn insert(&mut self, k: u64, v: V)
        ensures final(self)@ == old(self)@.insert(k, v),
    {
        proof { use_type_invariant(&*self); }
        let p: usize = self.position(k);
        let mut items: Vec<(u64, V)> = Vec::new();
        std::mem::swap(&mut items, &mut self.items);
        if p < items.len() && items[p].0 == k {
            proof { lemma_update_entry(items@, p as int, k, v); }
            items[p] = (k, v);
        } else {
            proof {
                assert forall|j: int| p <= j < items@.len() implies (#[trigger] items@[j]).0 > k by {
                    if p < j { assert(items@[p as int].0 < items@[j].0); }
                }
                lemma_insert_entry(items@, p as int, k, v);
            }
            items.insert(p, (k, v));
        }
        self.items = items;
    }

    pub fn remove(&mut self, k: u64)
        ensures final(self)@ == old(self)@.remove(k),
    {
        proof { use_type_invariant(&*self); }
        let p: usize = self.position(k);
        let mut items: Vec<(u64, V)> = Vec::new();
        std::mem::swap(&mut items, &mut self.items);
        if p < items.len() && items[p].0 == k {
            proof { lemma_remove_entry(items@, p as int, k); }
            let _ = items.remove(p);
        } else {
            proof {
                assert(!entries_map(items@).contains_key(k)) by {
                    if entries_map(items@).contains_key(k) {
                        let i = lemma_key(items@, k);
                        if p < items@.len() && i > p { assert(items@[p as int].0 < items@[i].0); }
                    }
                }
                assert(entries_map(items@).remove(k) =~= entries_map(items@));
            }
        }
        self.items = items;
    }

    pub fn copy(&self) -> (r: Self)
        ensures r@ == self@, r.entries() == self.entries(),
    {
        proof { use_type_invariant(self); }
        let mut items: Vec<(u64, V)> = Vec::new();
        let n: usize = self.items.len();
        let mut i: usize = 0;
        while i < n
            invariant
                i <= n,
                n == self.items@.len(),
                items@ == self.items@.take(i as int),
            decreases n - i,
        {
            items.push(self.items[i]);
            assert(self.items@.take(i + 1) =~= self.items@.take(i as int).push(self.items@[i as int]));
            i = i + 1;
        }
        assert(items@ =~= self.items@);
        OrdMap { items }
    }
}

}
