//! A key/value cache of bounded size that evicts the least recently used entry.
//!
//! The entries sit in a [`List`] from least to most recently used. An index maps
//! each key to a handle of its node; the index owns no node, and an entry whose
//! node was evicted stays in it, expired, until the key is put again.

use crate::node::{Handle, List};
use std::collections::HashMap;
use std::hash::Hash;
use vstd::prelude::*;

verus! {

/// Some entry of `s` has the key `k`.
pub open spec fn has_key<K, V>(s: Seq<(K, V)>, k: K) -> bool {
    exists|i: int| 0 <= i < s.len() && s[i].0 == k
}

/// The position of an entry of `s` with the key `k`.
pub open spec fn key_pos<K, V>(s: Seq<(K, V)>, k: K) -> int
    recommends
        has_key(s, k),
{
    choose|i: int| 0 <= i < s.len() && s[i].0 == k
}

/// No two entries of `s` share a key.
pub open spec fn keys_unique<K, V>(s: Seq<(K, V)>) -> bool {
    forall|i: int, j: int| 0 <= i < s.len() && 0 <= j < s.len() && s[i].0 == s[j].0 ==> i == j
}

/// A lookup of `k` in the entries `s`, ordered from least to most recently
/// used: the value found, and the entries afterwards, where a hit moves to the
/// most recently used end.
pub open spec fn cache_get<K, V>(s: Seq<(K, V)>, k: K) -> (Option<V>, Seq<(K, V)>) {
    if has_key(s, k) {
        let i = key_pos(s, k);
        (Some(s[i].1), s.remove(i).push(s[i]))
    } else {
        (None, s)
    }
}

/// The entries after putting `(k, v)` into `s` with room for `cap` entries: a
/// present key gets the new value and moves to the most recently used end; a
/// new key is added there, and if that makes one entry too many, the least
/// recently used entry goes.
pub open spec fn cache_put<K, V>(s: Seq<(K, V)>, cap: nat, k: K, v: V) -> Seq<(K, V)> {
    if has_key(s, k) {
        s.remove(key_pos(s, k)).push((k, v))
    } else if s.len() + 1 > cap {
        s.push((k, v)).drop_first()
    } else {
        s.push((k, v))
    }
}

/// The entries after putting `(ks[j], vs[j])` for each `j` in order into `s`,
/// with room for `cap` entries.
pub open spec fn put_all<K, V>(s: Seq<(K, V)>, cap: nat, ks: Seq<K>, vs: Seq<V>) -> Seq<(K, V)>
    decreases ks.len(),
{
    if ks.len() == 0 || vs.len() == 0 {
        s
    } else {
        cache_put(put_all(s, cap, ks.drop_last(), vs.drop_last()), cap, ks.last(), vs.last())
    }
}

/// A lookup finds the value of the one entry with that key.
proof fn lemma_get_at<K, V>(s: Seq<(K, V)>, i: int)
    requires
        keys_unique(s),
        0 <= i < s.len(),
    ensures
        has_key(s, s[i].0),
        key_pos(s, s[i].0) == i,
        cache_get(s, s[i].0).0 == Some(s[i].1),
{
    assert(0 <= i < s.len() && s[i].0 == s[i].0);
}

/// A put keeps the keys distinct and the entries within `cap`; with room for
/// one entry at least, the entry put is the most recently used.
proof fn lemma_put_shape<K, V>(s: Seq<(K, V)>, cap: nat, k: K, v: V)
    requires
        keys_unique(s),
        s.len() <= cap,
    ensures
        keys_unique(cache_put(s, cap, k, v)),
        cache_put(s, cap, k, v).len() <= cap,
        has_key(s, k) ==> cache_put(s, cap, k, v).len() == s.len(),
        cap > 0 ==> cache_put(s, cap, k, v).len() > 0 && cache_put(s, cap, k, v).last() == (k, v),
{
    let r = cache_put(s, cap, k, v);
    if has_key(s, k) {
        let i = key_pos(s, k);
        assert forall|a: int, b: int| 0 <= a < r.len() && 0 <= b < r.len() && r[a].0 == r[b].0 implies a
            == b by {
            let a2 = if a == r.len() - 1 { i } else if a < i { a } else { a + 1 };
            let b2 = if b == r.len() - 1 { i } else if b < i { b } else { b + 1 };
            assert(r[a].0 == s[a2].0 && r[b].0 == s[b2].0);
        }
    } else {
        let t = s.push((k, v));
        assert forall|a: int, b: int| 0 <= a < t.len() && 0 <= b < t.len() && t[a].0 == t[b].0 implies a
            == b by {
            if a < s.len() && b < s.len() {
                assert(t[a] == s[a] && t[b] == s[b]);
            } else if a < s.len() {
                assert(t[a] == s[a]);
            } else if b < s.len() {
                assert(t[b] == s[b]);
            }
        }
        if s.len() + 1 > cap {
            assert forall|a: int, b: int|
                0 <= a < r.len() && 0 <= b < r.len() && r[a].0 == r[b].0 implies a == b by {
                assert(r[a] == t[a + 1] && r[b] == t[b + 1]);
            }
        }
    }
}

/// Overwriting: putting `v1` and then `v2` under one key leaves `v2` to be
/// found there, and the second put does not change the number of entries.
pub proof fn law_overwrite<K, V>(s: Seq<(K, V)>, cap: nat, k: K, v1: V, v2: V)
    requires
        keys_unique(s),
        s.len() <= cap,
        cap >= 1,
    ensures
        cache_get(cache_put(cache_put(s, cap, k, v1), cap, k, v2), k).0 == Some(v2),
        cache_put(cache_put(s, cap, k, v1), cap, k, v2).len() == cache_put(s, cap, k, v1).len(),
{
    let s1 = cache_put(s, cap, k, v1);
    lemma_put_shape(s, cap, k, v1);
    assert(has_key(s1, k)) by {
        assert(s1[s1.len() - 1].0 == k);
    }
    let s2 = cache_put(s1, cap, k, v2);
    lemma_put_shape(s1, cap, k, v2);
    lemma_get_at(s2, s2.len() - 1);
}

/// The entries after putting distinct keys into an empty cache are the last
/// ones put, as many as there is room for, oldest first.
proof fn lemma_put_all_distinct<K, V>(cap: nat, ks: Seq<K>, vs: Seq<V>)
    requires
        ks.len() == vs.len(),
        ks.no_duplicates(),
    ensures
        ({
            let n = ks.len();
            let m = if n <= cap { n } else { cap };
            put_all(Seq::empty(), cap, ks, vs) == Seq::new(
                m,
                |i: int| (ks[n - m + i], vs[n - m + i]),
            )
        }),
    decreases ks.len(),
{
    let n = ks.len();
    let m = if n <= cap { n } else { cap };
    let want = Seq::new(m, |i: int| (ks[n - m + i], vs[n - m + i]));
    if n == 0 {
        assert(want =~= Seq::<(K, V)>::empty());
    } else {
        let ks0 = ks.drop_last();
        let vs0 = vs.drop_last();
        assert forall|a: int, b: int| 0 <= a < ks0.len() && 0 <= b < ks0.len() && a != b implies ks0[a]
            != ks0[b] by {
            assert(ks0[a] == ks[a] && ks0[b] == ks[b]);
        }
        lemma_put_all_distinct(cap, ks0, vs0);
        let n0 = ks0.len();
        let m0 = if n0 <= cap { n0 } else { cap };
        let prev = Seq::new(m0, |i: int| (ks0[n0 - m0 + i], vs0[n0 - m0 + i]));
        assert(put_all(Seq::empty(), cap, ks0, vs0) == prev);
        assert(!has_key(prev, ks.last())) by {
            if has_key(prev, ks.last()) {
                let i = key_pos(prev, ks.last());
                assert(ks[n0 - m0 + i] == ks[n - 1]);
            }
        }
        let t = prev.push((ks.last(), vs.last()));
        if m0 + 1 > cap {
            assert(t.drop_first() =~= want);
        } else {
            assert(t =~= want);
        }
    }
}

/// Capacity bound: after putting more distinct keys than there is room for into
/// an empty cache, the first key is gone and each of the last `cap` keys is
/// found with its value.
pub proof fn law_capacity_bound<K, V>(cap: nat, ks: Seq<K>, vs: Seq<V>)
    requires
        ks.len() == vs.len(),
        ks.len() > cap,
        ks.no_duplicates(),
    ensures
        cache_get(put_all(Seq::empty(), cap, ks, vs), ks[0]).0 is None,
        forall|j: int|
            ks.len() - cap <= j < ks.len() ==> cache_get(put_all(Seq::empty(), cap, ks, vs), ks[j]).0
                == Some(vs[j]),
{
    let n = ks.len();
    let s = put_all(Seq::empty(), cap, ks, vs);
    lemma_put_all_distinct(cap, ks, vs);
    assert(keys_unique(s)) by {
        assert forall|a: int, b: int| 0 <= a < s.len() && 0 <= b < s.len() && s[a].0 == s[b].0 implies a
            == b by {
            assert(ks[n - cap + a] == ks[n - cap + b]);
        }
    }
    assert(!has_key(s, ks[0])) by {
        if has_key(s, ks[0]) {
            let i = key_pos(s, ks[0]);
            assert(ks[n - cap + i] == ks[0]);
        }
    }
    assert forall|j: int| n - cap <= j < n implies cache_get(s, ks[j]).0 == Some(vs[j]) by {
        lemma_get_at(s, j - (n - cap));
    }
}

/// A cache from keys to values that holds at most `capacity` entries and, when
/// full, evicts the least recently used one.
pub struct LRU<K: Copy + Eq + Hash, T: Copy> {
    /// The values, from least to most recently used.
    list: List<T>,
    /// The index from keys to the nodes of `list`.
    map: HashMap<K, Handle>,
    capacity: usize,
    /// The key of each node of `list`, in the same order.
    keys: Ghost<Seq<K>>,
}

impl<K: Copy + Eq + Hash, T: Copy> View for LRU<K, T> {
    type V = Seq<(K, T)>;

    /// The entries, from least to most recently used.
    closed spec fn view(&self) -> Seq<(K, T)> {
        Seq::new(self.keys@.len(), |i: int| (self.keys@[i], self.list@[i]))
    }
}

impl<K: Copy + Eq + Hash, T: Copy> LRU<K, T> {
    /// How many entries the cache holds at most.
    pub closed spec fn cap(&self) -> nat {
        self.capacity as nat
    }

    spec fn index_ok(&self) -> bool {
        &&& forall|i: int|
            0 <= i < self.keys@.len() ==> {
                &&& self.map@.contains_key(#[trigger] self.keys@[i])
                &&& self.map@[self.keys@[i]] == self.list.handles()[i]
            }
        &&& forall|k: K|
            #[trigger] self.map@.contains_key(k) && !self.keys@.contains(k) ==> self.list.is_expired(
                self.map@[k],
            )
    }

    spec fn wf_but_size(&self) -> bool {
        &&& vstd::std_specs::hash::obeys_key_model::<K>()
        &&& self.list.wf()
        &&& self.keys@.len() == self.list@.len()
        &&& self.keys@.no_duplicates()
        &&& self.index_ok()
    }

    /// The cache is well formed: the list is, there is one distinct key per
    /// node, no more nodes than the capacity, the index maps each key to its
    /// node, and every other key of the index to an expired handle.
    pub closed spec fn wf(&self) -> bool {
        &&& self.wf_but_size()
        &&& self.list@.len() <= self.capacity
    }

    /// The entries of a well-formed cache have distinct keys, and there are no
    /// more of them than the capacity.
    pub proof fn lemma_shape(&self)
        requires
            self.wf(),
        ensures
            keys_unique(self@),
            self@.len() <= self.cap(),
    {
        assert forall|i: int, j: int|
            0 <= i < self@.len() && 0 <= j < self@.len() && self@[i].0 == self@[j].0 implies i
            == j by {
            assert(self@[i].0 == self.keys@[i] && self@[j].0 == self.keys@[j]);
        }
    }

    /// An empty cache with room for 10 entries.
    pub fn new() -> (r: Self)
        requires
            vstd::std_specs::hash::obeys_key_model::<K>(),
        ensures
            r.wf(),
            r@ == Seq::<(K, T)>::empty(),
            r.cap() == 10,
    {
        LRU::with_capacity(10)
    }

    /// An empty cache with room for `capacity` entries. With no room at all,
    /// every put is evicted at once and every get misses.
    pub fn with_capacity(capacity: usize) -> (r: Self)
        requires
            vstd::std_specs::hash::obeys_key_model::<K>(),
        ensures
            r.wf(),
            r@ == Seq::<(K, T)>::empty(),
            r.cap() == capacity,
    {
        let r = LRU { list: List::new(), map: HashMap::new(), capacity, keys: Ghost(Seq::empty()) };
        assert(r@ =~= Seq::<(K, T)>::empty());
        r
    }


    /// The handle that the index holds for `k`, if any.
    fn lookup(&self, k: K) -> (r: Option<Handle>)
        requires
            self.wf(),
        ensures
            r is None ==> !self.map@.contains_key(k),
            r matches Some(h) ==> self.map@.contains_key(k) && self.map@[k] == h,
    {
        match self.map.get(&k) {
            Some(h) => Some(*h),
            None => None,
        }
    }

    /// Whether the handle that the index holds for `k` resolves tells whether
    /// `k` is in the cache, and where.
    proof fn lemma_resolve(&self, k: K, found: Option<Handle>)
        requires
            self.wf(),
            found is None ==> !self.map@.contains_key(k),
            found matches Some(h) ==> self.map@.contains_key(k) && self.map@[k] == h,
        ensures
            has_key(self@, k) <==> (found matches Some(h) && self.list.is_live(h)),
            has_key(self@, k) <==> self.keys@.contains(k),
            forall|h: Handle|
                found == Some(h) && self.list.is_live(h) ==> {
                    &&& key_pos(self@, k) == self.list.pos(h)
                    &&& self.keys@[self.list.pos(h)] == k
                },
    {
        self.list.lemma_handles();
        self.lemma_shape();
        if self.keys@.contains(k) {
            let j = choose|j: int| 0 <= j < self.keys@.len() && self.keys@[j] == k;
            assert(self@[j].0 == k);
        }
        if has_key(self@, k) {
            let j = key_pos(self@, k);
            assert(self.keys@[j] == k);
            let h = self.list.handles()[j];
            assert(self.map@[k] == h);
            assert(self.list.is_live(h));
            assert(self.list.pos(h) == j);
        } else {
            if let Some(h) = found {
                if self.list.is_live(h) {
                    if self.keys@.contains(k) {
                        let j = choose|j: int| 0 <= j < self.keys@.len() && self.keys@[j] == k;
                        assert(self@[j].0 == k);
                    }
                    assert(self.list.is_expired(h));
                }
            }
        }
    }

    /// The value stored under `k`, or `None` when `k` is not in the cache. A hit
    /// makes `k` the most recently used entry.
    pub fn get(&mut self, k: K) -> (r: Option<T>)
        requires
            old(self).wf(),
        ensures
            final(self).wf(),
            final(self).cap() == old(self).cap(),
            (r, final(self)@) == cache_get(old(self)@, k),
    {
        let found = self.lookup(k);
        proof {
            self.lemma_resolve(k, found);
        }
        match found {
            None => None,
            Some(h) => match self.list.get_value(h) {
                None => None,
                Some(value) => {
                    let ghost i = self.list.pos(h);
                    self.list.move_node_to_back(h);
                    self.keys = Ghost(self.keys@.remove(i).push(k));
                    proof {
                        Self::lemma_requeued(*old(self), *self, i);
                    }
                    Some(value)
                },
            },
        }
    }

    proof fn lemma_requeued(o: Self, n: Self, i: int)
        requires
            o.wf(),
            0 <= i < o.keys@.len(),
            n.map@ == o.map@,
            n.capacity == o.capacity,
            n.list.wf(),
            o.list.expired_kept(&n.list),
            n.keys@ == o.keys@.remove(i).push(o.keys@[i]),
            n.list.handles() == o.list.handles().remove(i).push(o.list.handles()[i]),
            n.list@ == o.list@.remove(i).push(n.list@.last()),
        ensures
            n.wf(),
            n@ == o@.remove(i).push((o.keys@[i], n.list@.last())),
    {
        o.list.lemma_handles();
        n.list.lemma_handles();
        let ok = o.keys@;
        let nk = n.keys@;
        assert forall|a: int, b: int| 0 <= a < nk.len() && 0 <= b < nk.len() && a != b implies nk[a]
            != nk[b] by {
            let a2 = if a == nk.len() - 1 { i } else if a < i { a } else { a + 1 };
            let b2 = if b == nk.len() - 1 { i } else if b < i { b } else { b + 1 };
            assert(nk[a] == ok[a2] && nk[b] == ok[b2]);
        }
        assert forall|j: int| 0 <= j < nk.len() implies {
            &&& n.map@.contains_key(#[trigger] nk[j])
            &&& n.map@[nk[j]] == n.list.handles()[j]
        } by {
            let j2 = if j == nk.len() - 1 { i } else if j < i { j } else { j + 1 };
            assert(nk[j] == ok[j2]);
            assert(n.list.handles()[j] == o.list.handles()[j2]);
        }
        assert forall|k: K| #[trigger] n.map@.contains_key(k) && !nk.contains(k) implies n.list.is_expired(
            n.map@[k],
        ) by {
            if ok.contains(k) {
                let j = choose|j: int| 0 <= j < ok.len() && ok[j] == k;
                let j3 = if j == i { nk.len() - 1 } else if j < i { j } else { j - 1 };
                assert(nk[j3] == k);
            }
        }
        assert(n@ =~= o@.remove(i).push((o.keys@[i], n.list@.last())));
    }

    proof fn lemma_added(o: Self, n: Self, k: K)
        requires
            o.wf(),
            !o.keys@.contains(k),
            n.capacity == o.capacity,
            n.list.wf(),
            o.list.expired_kept(&n.list),
            n.list@.drop_last() == o.list@,
            n.list.handles().drop_last() == o.list.handles(),
            n.list@.len() == o.list@.len() + 1,
            n.map@ == o.map@.insert(k, n.list.handles().last()),
            n.keys@ == o.keys@.push(k),
        ensures
            n.wf_but_size(),
            n@ == o@.push((k, n.list@.last())),
            n.list@.len() <= n.capacity + 1,
    {
        o.list.lemma_handles();
        n.list.lemma_handles();
        let ok = o.keys@;
        let nk = n.keys@;
        assert forall|a: int, b: int| 0 <= a < nk.len() && 0 <= b < nk.len() && a != b implies nk[a]
            != nk[b] by {
            if a < ok.len() && b < ok.len() {
                assert(nk[a] == ok[a] && nk[b] == ok[b]);
            } else if a < ok.len() {
                assert(nk[a] == ok[a]);
            } else if b < ok.len() {
                assert(nk[b] == ok[b]);
            }
        }
        assert forall|j: int| 0 <= j < nk.len() implies {
            &&& n.map@.contains_key(#[trigger] nk[j])
            &&& n.map@[nk[j]] == n.list.handles()[j]
        } by {
            if j < ok.len() {
                assert(nk[j] == ok[j]);
                assert(ok[j] != k);
                assert(n.list.handles()[j] == n.list.handles().drop_last()[j]);
            }
        }
        assert forall|x: K| #[trigger] n.map@.contains_key(x) && !nk.contains(x) implies n.list.is_expired(
            n.map@[x],
        ) by {
            assert(x != k) by {
                assert(nk[nk.len() - 1] == k);
            }
            if ok.contains(x) {
                let j = choose|j: int| 0 <= j < ok.len() && ok[j] == x;
                assert(nk[j] == x);
            }
        }
        assert(n@ =~= o@.push((k, n.list@.last()))) by {
            assert forall|j: int| 0 <= j < ok.len() implies n.list@[j] == o.list@[j] by {
                assert(n.list@[j] == n.list@.drop_last()[j]);
            }
        }
    }

    proof fn lemma_evicted(f: Self, n: Self)
        requires
            f.wf_but_size(),
            f.list@.len() > 0,
            n.capacity == f.capacity,
            f.list@.len() <= f.capacity + 1,
            n.list.wf(),
            f.list.expired_kept(&n.list),
            n.list@ == f.list@.drop_first(),
            n.list.handles() == f.list.handles().drop_first(),
            n.list.is_expired(f.list.handles()[0]),
            n.map@ == f.map@,
            n.keys@ == f.keys@.drop_first(),
        ensures
            n.wf(),
            n@ == f@.drop_first(),
    {
        f.list.lemma_handles();
        let fk = f.keys@;
        let nk = n.keys@;
        assert forall|a: int, b: int| 0 <= a < nk.len() && 0 <= b < nk.len() && a != b implies nk[a]
            != nk[b] by {
            assert(nk[a] == fk[a + 1] && nk[b] == fk[b + 1]);
        }
        assert forall|j: int| 0 <= j < nk.len() implies {
            &&& n.map@.contains_key(#[trigger] nk[j])
            &&& n.map@[nk[j]] == n.list.handles()[j]
        } by {
            assert(nk[j] == fk[j + 1]);
        }
        assert forall|x: K| #[trigger] n.map@.contains_key(x) && !nk.contains(x) implies n.list.is_expired(
            n.map@[x],
        ) by {
            if fk.contains(x) {
                let j = choose|j: int| 0 <= j < fk.len() && fk[j] == x;
                if j > 0 {
                    assert(nk[j - 1] == x);
                }
            }
        }
        assert(n@ =~= f@.drop_first());
    }

    /// Stores `v` under `k`. A key already in the cache gets the new value in
    /// place; a new key is added, and if the cache then holds one entry more than
    /// its capacity, the least recently used entry is evicted.
    pub fn put(&mut self, k: K, v: T)
        requires
            old(self).wf(),
        ensures
            final(self).wf(),
            final(self).cap() == old(self).cap(),
            final(self)@ == cache_put(old(self)@, old(self).cap(), k, v),
    {
        let found = self.lookup(k);
        proof {
            self.lemma_resolve(k, found);
        }
        if let Some(h) = found {
            if self.list.get_value(h).is_some() {
                let ghost i = self.list.pos(h);
                self.list.set_value(h, v);
                self.list.move_node_to_back(h);
                self.keys = Ghost(self.keys@.remove(i).push(k));
                proof {
                    assert(old(self).list@.update(i, v).remove(i) =~= old(self).list@.remove(i));
                    Self::lemma_requeued(*old(self), *self, i);
                    assert(self@ =~= cache_put(old(self)@, old(self).cap(), k, v));
                }
                return;
            }
        }
        self.list.push_back(v);
        assert(self.list@.drop_last() =~= old(self).list@);
        match self.list.get_weak_tail() {
            Some(tail) => {
                self.map.insert(k, tail);
            },
            None => {},
        }
        self.keys = Ghost(self.keys@.push(k));
        proof {
            Self::lemma_added(*old(self), *self, k);
        }
        if self.list.len() > self.capacity {
            let ghost full = *self;
            self.list.pop_front();
            self.keys = Ghost(self.keys@.drop_first());
            proof {
                Self::lemma_evicted(full, *self);
                assert(self@ =~= cache_put(old(self)@, old(self).cap(), k, v));
            }
        } else {
            assert(self@ =~= cache_put(old(self)@, old(self).cap(), k, v));
        }
    }

    /// How many entries the cache holds at most.
    pub fn capacity(&self) -> (r: usize)
        ensures
            r == self.cap(),
    {
        self.capacity
    }

    /// The list of values, from least to most recently used.
    pub fn list(&self) -> (r: &List<T>)
        requires
            self.wf(),
        ensures
            r.wf(),
            r@ == self@.map_values(|e: (K, T)| e.1),
    {
        assert(self.list@ =~= self@.map_values(|e: (K, T)| e.1));
        &self.list
    }
}

} // verus!
