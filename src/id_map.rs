use vstd::prelude::*;

use crate::module_ids::ModuleId;

verus! {

/// A finite map keyed by module ids, kept as two parallel vectors.
pub struct IdMap<V> {
    keys: Vec<u64>,
    vals: Vec<V>,
}

/// No key occurs twice.
pub open spec fn distinct_keys(keys: Seq<u64>) -> bool {
    forall|i: int, j: int|
        0 <= i < keys.len() && 0 <= j < keys.len() && i != j ==> #[trigger] keys[i]
            != #[trigger] keys[j]
}

/// The position of `k` among `keys`.
pub open spec fn key_index(keys: Seq<u64>, k: u64) -> int {
    choose|i: int| 0 <= i < keys.len() && keys[i] == k
}

impl<V> View for IdMap<V> {
    type V = Map<u64, V>;

    closed spec fn view(&self) -> Map<u64, V> {
        Map::new(
            |k: u64| self.keys@.contains(k),
            |k: u64| self.vals@[key_index(self.keys@, k)],
        )
    }
}

impl<V> IdMap<V> {
    /// Keys are distinct and each has a value.
    pub closed spec fn wf(&self) -> bool {
        &&& self.keys@.len() == self.vals@.len()
        &&& distinct_keys(self.keys@)
    }

    proof fn lemma_index(&self, i: int)
        requires
            self.wf(),
            0 <= i < self.keys@.len(),
        ensures
            self@.contains_key(self.keys@[i]),
            self@[self.keys@[i]] == self.vals@[i],
            key_index(self.keys@, self.keys@[i]) == i,
    {
        assert(self.keys@.contains(self.keys@[i]));
        let j = key_index(self.keys@, self.keys@[i]);
        if j != i {
            assert(self.keys@[i] != self.keys@[j]);
        }
    }

    /// An empty map.
    pub fn new() -> (r: Self)
        ensures
            r.wf(),
            r@ == Map::<u64, V>::empty(),
    {
        let r = IdMap { keys: Vec::new(), vals: Vec::new() };
        assert(r@ =~= Map::<u64, V>::empty());
        r
    }

    /// A map has finitely many keys.
    pub proof fn lemma_dom_finite(&self)
        requires
            self.wf(),
        ensures
            self@.dom().finite(),
    {
        self.lemma_dom_len();
    }

    proof fn lemma_dom_len(&self)
        requires
            self.wf(),
        ensures
            self@.dom() == self.keys@.to_set(),
            self@.dom().len() == self.keys@.len(),
    {
        assert(self@.dom() =~= self.keys@.to_set());
        self.keys@.unique_seq_to_set();
    }

    fn find(&self, k: u64) -> (r: Option<usize>)
        requires
            self.wf(),
        ensures
            r is None ==> !self@.contains_key(k),
            r is Some ==> r->Some_0 < self.keys@.len() && self.keys@[r->Some_0 as int] == k,
    {
        let mut i: usize = 0;
        while i < self.keys.len()
            invariant
                i <= self.keys@.len(),
                forall|j: int| 0 <= j < i ==> self.keys@[j] != k,
            decreases self.keys@.len() - i,
        {
            if self.keys[i] == k {
                return Some(i);
            }
            i += 1;
        }
        None
    }

    /// Whether `k` has an entry.
    pub fn contains_key(&self, k: u64) -> (r: bool)
        requires
            self.wf(),
        ensures
            r == self@.contains_key(k),
    {
        match self.find(k) {
            Some(i) => {
                proof {
                    self.lemma_index(i as int);
                }
                true
            },
            None => false,
        }
    }

    /// The value of `k`, if it has one.
    pub fn get(&self, k: u64) -> (r: Option<&V>)
        requires
            self.wf(),
        ensures
            r is Some <==> self@.contains_key(k),
            r is Some ==> *r->Some_0 == self@[k],
    {
        match self.find(k) {
            Some(i) => {
                proof {
                    self.lemma_index(i as int);
                }
                Some(&self.vals[i])
            },
            None => None,
        }
    }

    /// Takes the entry of `k` out, if there is one.
    pub fn remove(&mut self, k: u64) -> (r: Option<V>)
        requires
            old(self).wf(),
        ensures
            final(self).wf(),
            final(self)@ == old(self)@.remove(k),
            r is Some <==> old(self)@.contains_key(k),
            r is Some ==> r->Some_0 == old(self)@[k],
    {
        match self.find(k) {
            Some(i) => {
                let ghost old_keys = self.keys@;
                let ghost old_vals = self.vals@;
                let ghost old_view = self@;
                proof {
                    self.lemma_index(i as int);
                }
                self.keys.remove(i);
                let v = self.vals.remove(i);
                proof {
                    assert forall|a: int, b: int|
                        0 <= a < self.keys@.len() && 0 <= b < self.keys@.len() && a != b
                        implies #[trigger] self.keys@[a] != #[trigger] self.keys@[b] by {
                        let a0 = if a < i { a } else { a + 1 };
                        let b0 = if b < i { b } else { b + 1 };
                        assert(old_keys[a0] != old_keys[b0]);
                    }
                    assert forall|kk: u64| #[trigger] self@.contains_key(kk) == old_view.remove(
                        k,
                    ).contains_key(kk) by {
                        if self.keys@.contains(kk) {
                            let a = choose|a: int| 0 <= a < self.keys@.len() && self.keys@[a] == kk;
                            let a0 = if a < i { a } else { a + 1 };
                            assert(old_keys[a0] == kk);
                            assert(old_keys.contains(kk));
                            if kk == k {
                                assert(old_keys[i as int] == k);
                                assert(a0 != i);
                                assert(old_keys[a0] != old_keys[i as int]);
                            }
                        }
                        if old_keys.contains(kk) && kk != k {
                            let a0 = choose|a: int| 0 <= a < old_keys.len() && old_keys[a] == kk;
                            assert(a0 != i);
                            let a = if a0 < i { a0 } else { a0 - 1 };
                            assert(self.keys@[a] == kk);
                        }
                    }
                    assert forall|kk: u64| #[trigger] self@.contains_key(kk) implies self@[kk]
                        == old_view[kk] by {
                        let a = choose|a: int| 0 <= a < self.keys@.len() && self.keys@[a] == kk;
                        self.lemma_index(a);
                        let a0 = if a < i { a } else { a + 1 };
                        assert(old_keys[a0] == kk);
                        assert(old_view[kk] == old_vals[key_index(old_keys, kk)]);
                        let j = key_index(old_keys, kk);
                        assert(old_keys.contains(kk));
                        if j != a0 {
                            assert(old_keys[j] != old_keys[a0]);
                        }
                    }
                    assert(self@ =~= old_view.remove(k));
                }
                Some(v)
            },
            None => {
                assert(self@ =~= self@.remove(k));
                None
            },
        }
    }

    /// Sets the value of `k` to `v`, replacing any earlier value.
    pub fn insert(&mut self, k: u64, v: V)
        requires
            old(self).wf(),
        ensures
            final(self).wf(),
            final(self)@ == old(self)@.insert(k, v),
    {
        let _ = self.remove(k);
        let ghost mid_keys = self.keys@;
        let ghost mid = self@;
        self.keys.push(k);
        self.vals.push(v);
        proof {
            let n = mid_keys.len() as int;
            assert(!mid.contains_key(k));
            assert(!mid_keys.contains(k));
            assert forall|a: int, b: int|
                0 <= a < self.keys@.len() && 0 <= b < self.keys@.len() && a != b
                implies #[trigger] self.keys@[a] != #[trigger] self.keys@[b] by {
                if a == n {
                    assert(mid_keys[b] == self.keys@[b]);
                } else if b == n {
                    assert(mid_keys[a] == self.keys@[a]);
                } else {
                    assert(mid_keys[a] != mid_keys[b]);
                }
            }
            assert forall|kk: u64| #[trigger] self@.contains_key(kk) == mid.insert(
                k,
                v,
            ).contains_key(kk) by {
                if mid_keys.contains(kk) {
                    let a = choose|a: int| 0 <= a < mid_keys.len() && mid_keys[a] == kk;
                    assert(self.keys@[a] == kk);
                }
                if self.keys@.contains(kk) && kk != k {
                    let a = choose|a: int| 0 <= a < self.keys@.len() && self.keys@[a] == kk;
                    assert(mid_keys[a] == kk);
                }
                assert(self.keys@[n] == k);
            }
            assert forall|kk: u64| #[trigger] self@.contains_key(kk) implies self@[kk]
                == mid.insert(k, v)[kk] by {
                let a = choose|a: int| 0 <= a < self.keys@.len() && self.keys@[a] == kk;
                self.lemma_index(a);
                if a < n {
                    assert(mid_keys[a] == kk);
                    assert(mid_keys.contains(kk));
                    let j = key_index(mid_keys, kk);
                    if j != a {
                        assert(mid_keys[j] != mid_keys[a]);
                    }
                }
            }
            assert(self@ =~= mid.insert(k, v));
        }
    }

    /// The keys, in the order they are kept.
    pub fn keys(&self) -> (r: Vec<u64>)
        requires
            self.wf(),
        ensures
            r@.to_set() == self@.dom(),
            r@.len() == self@.dom().len(),
            distinct_keys(r@),
    {
        proof {
            self.lemma_dom_len();
        }
        self.keys.clone()
    }

    /// Every entry, each key as a module id.
    pub fn into_entries(self) -> (r: Vec<(ModuleId, V)>)
        requires
            self.wf(),
        ensures
            r@.len() == self@.dom().len(),
            forall|k: int| 0 <= k < r@.len() ==> self@.contains_key((#[trigger] r@[k]).0.id) && self@[r@[k].0.id] == r@[k].1,
            forall|key: u64| #[trigger] self@.contains_key(key) ==> exists|k: int| 0 <= k < r@.len() && (#[trigger] r@[k]).0.id == key,
    {
        proof {
            self.lemma_dom_len();
        }
        let ghost orig = self;
        let n = self.keys.len();
        let mut keys = self.keys;
        let mut vals = self.vals;
        let mut out: Vec<(ModuleId, V)> = Vec::new();
        while keys.len() > 0
            invariant
                orig.wf(),
                n == orig.keys@.len(),
                keys@.len() == vals@.len(),
                keys@.len() + out@.len() == n,
                keys@ == orig.keys@.subrange(0, keys@.len() as int),
                vals@ == orig.vals@.subrange(0, vals@.len() as int),
                forall|t: int| 0 <= t < out@.len() ==> (#[trigger] out@[t]).0.id == orig.keys@[n - 1 - t]
                    && out@[t].1 == orig.vals@[n - 1 - t],
            decreases keys@.len(),
        {
            let k = keys.pop().unwrap();
            let v = vals.pop().unwrap();
            out.push((ModuleId { id: k }, v));
        }
        proof {
            assert forall|t: int| 0 <= t < out@.len() implies orig@.contains_key((#[trigger] out@[t]).0.id) && orig@[out@[t].0.id] == out@[t].1 by {
                orig.lemma_index(n - 1 - t);
            }
            assert forall|key: u64| #[trigger] orig@.contains_key(key) implies exists|t: int| 0 <= t < out@.len() && (#[trigger] out@[t]).0.id == key by {
                let i = choose|i: int| 0 <= i < orig.keys@.len() && orig.keys@[i] == key;
                assert(out@[n - 1 - i].0.id == key);
            }
        }
        out
    }
}

} // verus!
