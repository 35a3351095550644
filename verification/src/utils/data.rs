//! Hash tables keyed by integers, with the fast hasher of `rustc_hash`.

use rustc_hash::FxHashMap;
use vstd::prelude::*;

use crate::utils::key::HashKey;

verus! {

/// The hasher of `rustc_hash`, carried as an opaque value.
#[verifier::external_type_specification]
#[verifier::external_body]
pub struct ExFxBuildHasher(rustc_hash::FxBuildHasher);

/// A hash table for integer keys such as job, worker and flow identifiers.
pub struct DHashMap<K: HashKey, V> {
    inner: FxHashMap<K, V>,
}

impl<K: HashKey, V> View for DHashMap<K, V> {
    type V = Map<K, V>;

    closed spec fn view(&self) -> Map<K, V> {
        self.inner@
    }
}

impl<K: HashKey + Copy + Eq + core::hash::Hash, V> DHashMap<K, V> {
    /// Makes an empty table. Wraps `FxHashMap::default`, which allocates nothing and holds nothing.
    #[verifier::external_body]
    pub fn new() -> (m: Self)
        ensures
            (m@ == Map::<K, V>::empty()),
    {
        DHashMap { inner: FxHashMap::default() }
    }

    /// Adds or replaces an entry. Wraps `HashMap::insert` on a table with the `rustc_hash` hasher:
    /// the key maps to the value afterwards, the previous value comes back.
    #[verifier::external_body]
    pub fn insert(&mut self, k: K, v: V) -> (r: Option<V>)
        ensures
            final(self)@ == old(self)@.insert(k, v),
            r == (if old(self)@.contains_key(k) { Some(old(self)@[k]) } else { None }),
    {
        self.inner.insert(k, v)
    }

    /// Looks an entry up. Wraps `HashMap::get` on a table with the `rustc_hash` hasher.
    #[verifier::external_body]
    pub fn get(&self, k: &K) -> (r: Option<&V>)
        ensures
            r == (if self@.contains_key(*k) { Some(&self@[*k]) } else { None }),
    {
        self.inner.get(k)
    }

    /// Looks an entry up for writing. Wraps `HashMap::get_mut` on a table with the `rustc_hash`
    /// hasher: what is written through the reference becomes the entry's value.
    #[verifier::external_body]
    pub fn get_mut(&mut self, k: &K) -> (r: Option<&mut V>)
        ensures
            match r {
                Some(v) => old(self)@.contains_key(*k) && *v == old(self)@[*k]
                    && final(self)@ == old(self)@.insert(*k, *final(v)),
                None => !old(self)@.contains_key(*k) && final(self)@ == old(self)@,
            },
    {
        self.inner.get_mut(k)
    }

    /// Takes an entry out. Wraps `HashMap::remove` on a table with the `rustc_hash` hasher.
    #[verifier::external_body]
    pub fn remove(&mut self, k: &K) -> (r: Option<V>)
        ensures
            final(self)@ == old(self)@.remove(*k),
            r == (if old(self)@.contains_key(*k) { Some(old(self)@[*k]) } else { None }),
    {
        self.inner.remove(k)
    }

    /// Lists the keys, each once, in no particular order. Wraps `HashMap::keys` on a table with
    /// the `rustc_hash` hasher.
    #[verifier::external_body]
    pub fn keys(&self) -> (r: Vec<K>)
        ensures
            r@.no_duplicates(),
            r@.to_set() == self@.dom(),
    {
        self.inner.keys().copied().collect()
    }

    /// Number of entries.
    pub fn len(&self) -> (r: usize)
        ensures
            self@.dom().finite(),
            r == self@.dom().len(),
    {
        let ks = self.keys();
        proof {
            ks@.unique_seq_to_set();
            vstd::seq_lib::seq_to_set_is_finite(ks@);
        }
        ks.len()
    }

    /// Whether there is no entry.
    pub fn is_empty(&self) -> (r: bool)
        ensures
            r == (self@ == Map::<K, V>::empty()),
            r == (self@.dom() == Set::<K>::empty()),
    {
        let ks = self.keys();
        proof {
            if ks@.len() == 0 {
                assert(self@.dom() =~= Set::<K>::empty());
                assert(self@ =~= Map::<K, V>::empty());
            } else {
                assert(ks@.to_set().contains(ks@[0]));
                assert(self@.dom().contains(ks@[0]));
            }
        }
        ks.len() == 0
    }

    /// Whether the key has an entry.
    pub fn contains_key(&self, k: &K) -> (r: bool)
        ensures
            r == self@.contains_key(*k),
    {
        self.get(k).is_some()
    }

    /// Drops every entry.
    pub fn clear(&mut self)
        ensures
            final(self)@ == Map::<K, V>::empty(),
    {
        *self = DHashMap::new();
    }
}

impl<K: HashKey + Copy + Eq + core::hash::Hash, V: Copy> DHashMap<K, V> {
    /// A second table with the same entries.
    pub fn duplicate(&self) -> (r: Self)
        ensures
            r@ == self@,
    {
        let ks = self.keys();
        let mut out: DHashMap<K, V> = DHashMap::new();
        let mut i: usize = 0;
        while i < ks.len()
            invariant
                i <= ks.len(),
                ks@.to_set() == self@.dom(),
                out@.dom() == ks@.take(i as int).to_set(),
                forall|k: K| #[trigger] out@.contains_key(k) ==> self@.contains_key(k) && out@[k] == self@[k],
            decreases ks.len() - i,
        {
            proof {
                assert(ks@.to_set().contains(ks@[i as int]));
                assert(ks@.take(i + 1) == ks@.take(i as int).push(ks@[i as int]));
                lemma_push_to_set(ks@.take(i as int), ks@[i as int]);
            }
            match self.get(&ks[i]) {
                Some(v) => {
                    out.insert(ks[i], *v);
                },
                None => {},
            }
            i += 1;
        }
        proof {
            assert(ks@.take(ks@.len() as int) == ks@);
            assert(out@ =~= self@);
        }
        out
    }
}

impl<V> DHashMap<usize, V> {
    /// The keys in ascending order.
    pub fn sorted_keys(&self) -> (r: Vec<usize>)
        ensures
            strictly_ascending(r@),
            r@.to_set() == self@.dom(),
    {
        let ks = self.keys();
        let r = sort_distinct(ks);
        r
    }
}

/// A hash set of integer keys.
pub struct DHashSet<K: HashKey> {
    inner: DHashMap<K, ()>,
}

impl<K: HashKey> View for DHashSet<K> {
    type V = Set<K>;

    closed spec fn view(&self) -> Set<K> {
        self.inner@.dom()
    }
}

impl<K: HashKey + Copy + Eq + core::hash::Hash> DHashSet<K> {
    /// An empty set.
    pub fn new() -> (s: Self)
        ensures
            s@ == Set::<K>::empty(),
    {
        DHashSet { inner: DHashMap::new() }
    }

    /// Adds an element; `true` if it was not there.
    pub fn insert(&mut self, k: K) -> (r: bool)
        ensures
            final(self)@ == old(self)@.insert(k),
            r == !old(self)@.contains(k),
    {
        let before = self.inner.insert(k, ());
        proof {
            assert(self@ =~= old(self)@.insert(k));
        }
        before.is_none()
    }

    /// Takes an element out; `true` if it was there.
    pub fn remove(&mut self, k: &K) -> (r: bool)
        ensures
            final(self)@ == old(self)@.remove(*k),
            r == old(self)@.contains(*k),
    {
        let before = self.inner.remove(k);
        proof {
            assert(self@ =~= old(self)@.remove(*k));
        }
        before.is_some()
    }

    /// Whether the element is there.
    pub fn contains(&self, k: &K) -> (r: bool)
        ensures
            r == self@.contains(*k),
    {
        self.inner.contains_key(k)
    }

    /// Number of elements.
    pub fn len(&self) -> (r: usize)
        ensures
            self@.finite(),
            r == self@.len(),
    {
        self.inner.len()
    }

    /// Whether there is no element.
    pub fn is_empty(&self) -> (r: bool)
        ensures
            r == (self@ == Set::<K>::empty()),
    {
        self.inner.is_empty()
    }

    /// Drops every element.
    pub fn clear(&mut self)
        ensures
            final(self)@ == Set::<K>::empty(),
    {
        self.inner.clear();
    }

    /// The elements, each once, in no particular order.
    pub fn elements(&self) -> (r: Vec<K>)
        ensures
            r@.no_duplicates(),
            r@.to_set() == self@,
    {
        self.inner.keys()
    }
}

impl DHashSet<usize> {
    /// The elements in ascending order.
    pub fn sorted(&self) -> (r: Vec<usize>)
        ensures
            strictly_ascending(r@),
            r@.to_set() == self@,
    {
        self.inner.sorted_keys()
    }
}

/// Each element is below every later one.
pub open spec fn strictly_ascending(s: Seq<usize>) -> bool {
    forall|i: int, j: int| 0 <= i < j < s.len() ==> s[i] < s[j]
}

/// The elements of `s` with `x` at the end are those of `s` and `x`.
pub proof fn lemma_push_to_set<A>(s: Seq<A>, x: A)
    ensures
        s.push(x).to_set() == s.to_set().insert(x),
{
    assert forall|y: A| s.push(x).to_set().contains(y) == s.to_set().insert(x).contains(y) by {
        if s.contains(y) {
            let i = choose|i: int| 0 <= i < s.len() && s[i] == y;
            assert(s.push(x)[i] == y);
        }
        assert(s.push(x)[s.len() as int] == x);
    }
    assert(s.push(x).to_set() =~= s.to_set().insert(x));
}

/// A strictly ascending listing of a set is unique.
pub proof fn lemma_ascending_unique(a: Seq<usize>, b: Seq<usize>)
    requires
        strictly_ascending(a),
        strictly_ascending(b),
        a.to_set() == b.to_set(),
    ensures
        a == b,
    decreases a.len(),
{
    if a.len() == 0 {
        if b.len() > 0 {
            assert(b.to_set().contains(b[0]));
            assert(a.to_set().contains(b[0]));
        }
        assert(a =~= b);
    } else {
        assert(a.to_set().contains(a.last()));
        assert(b.contains(a.last()));
        assert(b.to_set().contains(b.last()));
        assert(a.contains(b.last()));
        let i = choose|i: int| 0 <= i < b.len() && b[i] == a.last();
        let j = choose|j: int| 0 <= j < a.len() && a[j] == b.last();
        assert(a.last() == b.last());
        let a2 = a.drop_last();
        let b2 = b.drop_last();
        assert forall|y: usize| a2.to_set().contains(y) == b2.to_set().contains(y) by {
            if a2.contains(y) {
                let k = choose|k: int| 0 <= k < a2.len() && a2[k] == y;
                assert(a[k] == y);
                assert(a.to_set().contains(y));
                assert(b.contains(y));
                let m = choose|m: int| 0 <= m < b.len() && b[m] == y;
                assert(m < b.len() - 1);
                assert(b2[m] == y);
            }
            if b2.contains(y) {
                let k = choose|k: int| 0 <= k < b2.len() && b2[k] == y;
                assert(b[k] == y);
                assert(b.to_set().contains(y));
                assert(a.contains(y));
                let m = choose|m: int| 0 <= m < a.len() && a[m] == y;
                assert(m < a.len() - 1);
                assert(a2[m] == y);
            }
        }
        assert(a2.to_set() =~= b2.to_set());
        lemma_ascending_unique(a2, b2);
        assert(a =~= a2.push(a.last()));
        assert(b =~= b2.push(b.last()));
    }
}

/// Distinct integers have an ascending listing.
pub proof fn lemma_can_sort(v: Seq<usize>)
    requires
        v.no_duplicates(),
    ensures
        exists|s: Seq<usize>| #[trigger] strictly_ascending(s) && s.to_set() == v.to_set() && s.len() == v.len(),
{
    let leq = |a: usize, b: usize| a <= b;
    let s = v.sort_by(leq);
    v.lemma_sort_by_ensures(leq);
    broadcast use vstd::seq_lib::group_to_multiset_ensures;

    v.lemma_multiset_has_no_duplicates();
    s.lemma_multiset_has_no_duplicates_conv();
    assert(s.len() == v.len()) by {
        assert(s.to_multiset().len() == v.to_multiset().len());
    }
    assert forall|x: usize| s.to_set().contains(x) == v.to_set().contains(x) by {
        assert(s.to_multiset().count(x) == v.to_multiset().count(x));
    }
    assert(s.to_set() =~= v.to_set());
    assert forall|i: int, j: int| 0 <= i < j < s.len() implies s[i] < s[j] by {
        assert(leq(s[i], s[j]));
    }
    assert(strictly_ascending(s));
}

/// Sorts distinct integers.
pub fn sort_distinct(v: Vec<usize>) -> (r: Vec<usize>)
    requires
        v@.no_duplicates(),
    ensures
        strictly_ascending(r@),
        r@.to_set() == v@.to_set(),
        r@.len() == v@.len(),
{
    let mut r: Vec<usize> = Vec::new();
    let mut i: usize = 0;
    while i < v.len()
        invariant
            i <= v.len(),
            v@.no_duplicates(),
            r@.len() == i,
            strictly_ascending(r@),
            r@.to_set() == v@.take(i as int).to_set(),
        decreases v.len() - i,
    {
        let x: usize = v[i];
        let mut p: usize = r.len();
        while p > 0 && r[p - 1] > x
            invariant
                p <= r.len(),
                forall|k: int| p <= k < r.len() ==> r[k] > x,
            decreases p,
        {
            p -= 1;
        }
        let ghost before = r@;
        proof {
            if before.contains(x) {
                assert(before.to_set().contains(x));
                assert(v@.take(i as int).contains(x));
                let k = choose|k: int| 0 <= k < i && v@.take(i as int)[k] == x;
                assert(v@[k] == v@[i as int]);
            }
            if p > 0 {
                assert(before.contains(before[p - 1]));
            }
        }
        r.insert(p, x);
        proof {
            assert(r@ == before.insert(p as int, x));
            assert forall|y: usize| r@.to_set().contains(y) == before.to_set().insert(x).contains(y) by {
                if before.contains(y) {
                    let k = choose|k: int| 0 <= k < before.len() && before[k] == y;
                    if k < p {
                        assert(r@[k] == y);
                    } else {
                        assert(r@[k + 1] == y);
                    }
                }
                assert(r@[p as int] == x);
                if r@.contains(y) {
                    let k = choose|k: int| 0 <= k < r@.len() && r@[k] == y;
                    if k < p {
                        assert(before[k] == y);
                    } else if k > p {
                        assert(before[k - 1] == y);
                    }
                }
            }
            assert(r@.to_set() =~= before.to_set().insert(x));
            assert(v@.take(i + 1) == v@.take(i as int).push(x));
            lemma_push_to_set(v@.take(i as int), x);
        }
        i += 1;
    }
    proof {
        assert(v@.take(v@.len() as int) == v@);
    }
    r
}

/// No element is above a later one.
pub open spec fn sorted_list(s: Seq<usize>) -> bool {
    forall|i: int, j: int| 0 <= i <= j < s.len() ==> s[i] <= s[j]
}

/// Sorts integers.
pub fn sort_values(v: Vec<usize>) -> (r: Vec<usize>)
    ensures
        sorted_list(r@),
        r@.to_multiset() == v@.to_multiset(),
        r@.len() == v@.len(),
{
    let mut r: Vec<usize> = Vec::new();
    let mut i: usize = 0;
    proof {
        assert(v@.take(0) =~= r@);
    }
    while i < v.len()
        invariant
            i <= v.len(),
            r@.len() == i,
            sorted_list(r@),
            r@.to_multiset() == v@.take(i as int).to_multiset(),
        decreases v.len() - i,
    {
        let x: usize = v[i];
        let mut p: usize = r.len();
        while p > 0 && r[p - 1] > x
            invariant
                p <= r.len(),
                forall|k: int| p <= k < r.len() ==> r[k] > x,
            decreases p,
        {
            p -= 1;
        }
        let ghost before = r@;
        r.insert(p, x);
        proof {
            broadcast use vstd::seq_lib::group_to_multiset_ensures;

            assert(r@ == before.insert(p as int, x));
            assert(v@.take(i + 1) =~= v@.take(i as int).push(x));
        }
        i += 1;
    }
    proof {
        assert(v@.take(v@.len() as int) =~= v@);
    }
    r
}

} // verus!
