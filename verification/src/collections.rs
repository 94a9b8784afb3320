//! Ordered sets and maps over keys that carry an integer rank.
//!
//! Cluster bookkeeping keys everything by node identifiers and partition
//! numbers.  Both are plain integers underneath, so the containers here keep
//! their entries sorted by that integer.  Sorting gives each set and map a
//! single canonical layout, which makes iteration order deterministic and
//! equality a pointwise comparison.
use vstd::prelude::*;

verus! {

/// A key type that is ordered by an injective integer rank.
pub trait Keyed: Copy + Sized {
    spec fn rank(&self) -> int;

    proof fn lemma_rank_injective(a: Self, b: Self)
        ensures
            a.rank() == b.rank() ==> a == b,
    ;

    fn rank_lt(&self, other: &Self) -> (b: bool)
        ensures
            b == (self.rank() < other.rank()),
    ;

    fn rank_eq(&self, other: &Self) -> (b: bool)
        ensures
            b == (self.rank() == other.rank()),
    ;
}

impl Keyed for u64 {
    open spec fn rank(&self) -> int {
        *self as int
    }

    proof fn lemma_rank_injective(a: Self, b: Self) {
    }

    fn rank_lt(&self, other: &Self) -> (b: bool) {
        *self < *other
    }

    fn rank_eq(&self, other: &Self) -> (b: bool) {
        *self == *other
    }
}

/// Keys strictly increase by rank.
pub open spec fn keys_sorted<K: Keyed>(s: Seq<K>) -> bool {
    forall|i: int, j: int| 0 <= i < j < s.len() ==> (#[trigger] s[i]).rank() < (#[trigger] s[j]).rank()
}

/// Keys of the pairs strictly increase by rank.
pub open spec fn pairs_sorted<K: Keyed, V>(s: Seq<(K, V)>) -> bool {
    forall|i: int, j: int|
        0 <= i < j < s.len() ==> (#[trigger] s[i]).0.rank() < (#[trigger] s[j]).0.rank()
}

/// The key set of a sequence of pairs.
pub open spec fn pairs_has_key<K, V>(s: Seq<(K, V)>, k: K) -> bool {
    exists|i: int| 0 <= i < s.len() && (#[trigger] s[i]).0 == k
}

/// The map that a sequence of pairs with distinct keys stands for.
pub open spec fn pairs_to_map<K, V: View>(s: Seq<(K, V)>) -> Map<K, V::V> {
    Map::new(
        |k: K| pairs_has_key(s, k),
        |k: K| s[choose|i: int| 0 <= i < s.len() && (#[trigger] s[i]).0 == k].1@,
    )
}

/// An entry of a sorted pair sequence is what the map holds under its key.
pub proof fn lemma_pair_in_map<K: Keyed, V: View>(s: Seq<(K, V)>, i: int)
    requires
        pairs_sorted(s),
        0 <= i < s.len(),
    ensures
        pairs_to_map(s).dom().contains(s[i].0),
        pairs_to_map(s)[s[i].0] == s[i].1@,
{
}

/// Appending a pair under a new key inserts it into the map.
pub proof fn lemma_pairs_to_map_push<K: Keyed, V: View>(s: Seq<(K, V)>, x: (K, V))
    requires
        pairs_sorted(s.push(x)),
    ensures
        pairs_to_map(s.push(x)) == pairs_to_map(s).insert(x.0, x.1@),
        pairs_sorted(s),
{
    let t = s.push(x);
    assert forall|i: int, j: int| 0 <= i < j < s.len() implies (#[trigger] s[i]).0.rank() < (
    #[trigger] s[j]).0.rank() by {
        assert(t[i] == s[i]);
        assert(t[j] == s[j]);
    }
    assert forall|k: K| #[trigger]
        pairs_to_map(t).dom().contains(k) == pairs_to_map(s).insert(x.0, x.1@).dom().contains(k) by {
        if pairs_has_key(s, k) {
            let j = choose|j: int| 0 <= j < s.len() && (#[trigger] s[j]).0 == k;
            assert(t[j].0 == k);
        }
        if k == x.0 {
            assert(t[s.len() as int].0 == k);
        }
    }
    assert forall|k: K| #[trigger] pairs_to_map(t).dom().contains(k) implies pairs_to_map(t)[k]
        == pairs_to_map(s).insert(x.0, x.1@)[k] by {
        let j = choose|j: int| 0 <= j < t.len() && (#[trigger] t[j]).0 == k;
        lemma_pair_in_map(t, j);
        if j < s.len() {
            lemma_pair_in_map(s, j);
            assert(t[j].0.rank() < t[s.len() as int].0.rank());
        }
    }
}

/// The prefix of a sorted pair sequence is sorted, and its map grows by the
/// next pair.
pub proof fn lemma_pairs_prefix_step<K: Keyed, V: View>(s: Seq<(K, V)>, i: int)
    requires
        pairs_sorted(s),
        0 <= i < s.len(),
    ensures
        pairs_sorted(s.take(i)),
        pairs_sorted(s.take(i + 1)),
        pairs_to_map(s.take(i + 1)) == pairs_to_map(s.take(i)).insert(s[i].0, s[i].1@),
        !pairs_to_map(s.take(i)).dom().contains(s[i].0),
{
    assert(s.take(i + 1) =~= s.take(i).push(s[i]));
    assert forall|a: int, b: int| 0 <= a < b < s.take(i + 1).len() implies (#[trigger] s.take(
        i + 1,
    )[a]).0.rank() < (#[trigger] s.take(i + 1)[b]).0.rank() by {
    }
    lemma_pairs_to_map_push(s.take(i), s[i]);
}

/// The whole sequence is its longest prefix.
pub proof fn lemma_pairs_take_all<K, V: View>(s: Seq<(K, V)>)
    ensures
        s.take(s.len() as int) == s,
        pairs_to_map(s.take(s.len() as int)) == pairs_to_map(s),
{
    assert(s.take(s.len() as int) =~= s);
}

/// A prefix one longer holds one more element.
pub proof fn lemma_take_step_contains<A>(s: Seq<A>, i: int)
    requires
        0 <= i < s.len(),
    ensures
        forall|y: A| #[trigger]
            s.take(i + 1).contains(y) == (s.take(i).contains(y) || y == s[i]),
{
    assert forall|y: A| #[trigger] s.take(i + 1).contains(y) == (s.take(i).contains(y) || y == s[i]) by {
        if y == s[i] {
            assert(s.take(i + 1)[i] == y);
        }
    }
}

/// Two sorted sequences with the same elements are the same sequence.
pub proof fn lemma_sorted_same_elements<K: Keyed>(a: Seq<K>, b: Seq<K>)
    requires
        keys_sorted(a),
        keys_sorted(b),
        forall|k: K| a.contains(k) <==> b.contains(k),
    ensures
        a == b,
    decreases a.len() + b.len(),
{
    if a.len() == 0 {
        if b.len() > 0 {
            assert(b.contains(b[0]));
        }
    } else if b.len() == 0 {
        assert(a.contains(a[0]));
    } else {
        let la = a.last();
        let lb = b.last();
        assert(a.contains(la));
        assert(b.contains(lb));
        let a2 = a.drop_last();
        let b2 = b.drop_last();
        assert forall|k: K| a2.contains(k) implies b2.contains(k) by {
            assert(b.contains(k));
            let j = choose|j: int| 0 <= j < b.len() && b[j] == k;
            assert(b2[j] == k);
        }
        assert forall|k: K| b2.contains(k) implies a2.contains(k) by {
            assert(a.contains(k));
            let j = choose|j: int| 0 <= j < a.len() && a[j] == k;
            assert(a2[j] == k);
        }
        lemma_sorted_same_elements(a2, b2);
        assert(a =~= a2.push(la));
    }
}

/// The number of elements of a sorted set is the length of its sequence.
pub proof fn lemma_set_len<K: Keyed>(s: SortedSet<K>)
    requires
        s.wf(),
    ensures
        s@.finite(),
        s@.len() == s.elems().len(),
{
    assert(s.elems().no_duplicates()) by {
        assert forall|i: int, j: int| 0 <= i < s.elems().len() && 0 <= j < s.elems().len() && i != j implies s.elems()[i] != s.elems()[j] by {
        }
    }
    s.elems().unique_seq_to_set();
}

/// A finite set of keys kept as a strictly increasing sequence.
#[derive(Debug, Clone)]
pub struct SortedSet<K> {
    items: Vec<K>,
}

impl<K: Keyed> View for SortedSet<K> {
    type V = Set<K>;

    open spec fn view(&self) -> Set<K> {
        Set::new(|k: K| self.elems().contains(k))
    }
}

impl<K: Keyed> SortedSet<K> {
    /// Whether the elements are strictly sorted by rank.
    pub fn is_sorted(&self) -> (b: bool)
        ensures
            b == self.wf(),
    {
        let n = self.items.len();
        if n == 0 {
            return true;
        }
        let mut i: usize = 1;
        while i < n
            invariant
                1 <= i <= n,
                n == self.elems().len(),
                forall|a: int, b: int|
                    0 <= a < b < i ==> (#[trigger] self.elems()[a]).rank() < (
                    #[trigger] self.elems()[b]).rank(),
            decreases n - i,
        {
            if !self.items[i - 1].rank_lt(&self.items[i]) {
                assert(!(self.elems()[i - 1].rank() < self.elems()[i as int].rank()));
                return false;
            }
            proof {
                assert forall|a: int, b: int|
                    0 <= a < b < i + 1 implies (#[trigger] self.elems()[a]).rank() < (
                    #[trigger] self.elems()[b]).rank() by {
                    if b == i && a < i - 1 {
                        assert(self.elems()[a].rank() < self.elems()[i - 1].rank());
                    }
                }
            }
            i += 1;
        }
        true
    }

    /// The elements in increasing order.
    pub closed spec fn elems(&self) -> Seq<K> {
        self.items@
    }

    /// The elements are strictly sorted by rank.
    pub open spec fn wf(&self) -> bool {
        keys_sorted(self.elems())
    }

    /// An empty set.
    pub fn new() -> (s: Self)
        ensures
            s.wf(),
            s.elems() == Seq::<K>::empty(),
            s@ == Set::<K>::empty(),
    {
        let s = SortedSet { items: Vec::new() };
        s
    }

    /// The number of entries.
    pub fn len(&self) -> (n: usize)
        ensures
            n == self.elems().len(),
    {
        self.items.len()
    }

    /// Whether there is no entry.
    pub fn is_empty(&self) -> (b: bool)
        requires
            self.wf(),
        ensures
            b == (self.elems().len() == 0),
            b == (self@ == Set::<K>::empty()),
    {
        if self.items.len() == 0 {
            assert(self@ =~= Set::<K>::empty());
            true
        } else {
            assert(self@.contains(self.elems()[0]));
            false
        }
    }

    /// The element at position `i` in increasing order.
    pub fn get(&self, i: usize) -> (k: K)
        requires
            i < self.elems().len(),
        ensures
            k == self.elems()[i as int],
    {
        self.items[i]
    }

    /// First position whose element does not rank below `k`, and whether it is `k`.
    fn search(&self, k: &K) -> (res: (usize, bool))
        requires
            self.wf(),
        ensures
            res.0 <= self.elems().len(),
            forall|j: int| 0 <= j < res.0 ==> (#[trigger] self.elems()[j]).rank() < k.rank(),
            forall|j: int|
                res.0 <= j < self.elems().len() ==> k.rank() <= (#[trigger] self.elems()[j]).rank(),
            res.1 == (res.0 < self.elems().len() && self.elems()[res.0 as int] == *k),
            res.1 == self@.contains(*k),
    {
        let mut i: usize = 0;
        while i < self.items.len() && self.items[i].rank_lt(k)
            invariant
                self.wf(),
                i <= self.elems().len(),
                forall|j: int| 0 <= j < i ==> (#[trigger] self.elems()[j]).rank() < k.rank(),
            decreases self.elems().len() - i,
        {
            i += 1;
        }
        assert forall|j: int| i <= j < self.elems().len() implies k.rank() <= (
        #[trigger] self.elems()[j]).rank() by {
        }
        let found = i < self.items.len() && self.items[i].rank_eq(k);
        proof {
            if i < self.elems().len() {
                K::lemma_rank_injective(self.elems()[i as int], *k);
            }
        }
        (i, found)
    }

    /// Whether `k` is an element.
    pub fn contains(&self, k: &K) -> (b: bool)
        requires
            self.wf(),
        ensures
            b == self@.contains(*k),
    {
        self.search(k).1
    }

    /// Adds `k`; reports whether it was absent before.
    pub fn insert(&mut self, k: K) -> (added: bool)
        requires
            old(self).wf(),
        ensures
            final(self).wf(),
            final(self)@ == old(self)@.insert(k),
            added == !old(self)@.contains(k),
    {
        let (pos, found) = self.search(&k);
        if found {
            false
        } else {
            let ghost before = self.elems();
            self.items.insert(pos, k);
            assert forall|i: int, j: int| 0 <= i < j < self.elems().len() implies (
            #[trigger] self.elems()[i]).rank() < (#[trigger] self.elems()[j]).rank() by {
                if pos <= j && i == pos {
                    K::lemma_rank_injective(k, before[j - 1]);
                }
            }
            assert forall|x: K| #[trigger] self@.contains(x) == old(self)@.insert(k).contains(x) by {
                if x != k {
                    if before.contains(x) {
                        let i = choose|i: int| 0 <= i < before.len() && before[i] == x;
                        if i < pos {
                            assert(self.elems()[i] == x);
                        } else {
                            assert(self.elems()[i + 1] == x);
                        }
                    }
                } else {
                    assert(self.elems()[pos as int] == k);
                }
            }
            true
        }
    }

    /// Removes `k`; reports whether it was present before.
    pub fn remove(&mut self, k: &K) -> (removed: bool)
        requires
            old(self).wf(),
        ensures
            final(self).wf(),
            final(self)@ == old(self)@.remove(*k),
            removed == old(self)@.contains(*k),
    {
        let (pos, found) = self.search(k);
        if !found {
            false
        } else {
            let ghost before = self.elems();
            self.items.remove(pos);
            assert forall|i: int, j: int| 0 <= i < j < self.elems().len() implies (
            #[trigger] self.elems()[i]).rank() < (#[trigger] self.elems()[j]).rank() by {
            }
            assert forall|x: K| #[trigger] self@.contains(x) == old(self)@.remove(*k).contains(x) by {
                if before.contains(x) && x != *k {
                    let i = choose|i: int| 0 <= i < before.len() && before[i] == x;
                    if i < pos {
                        assert(self.elems()[i] == x);
                    } else {
                        assert(self.elems()[i - 1] == x);
                    }
                }
            }
            true
        }
    }

    /// Appends an element that ranks above every element held.
    pub fn push_greatest(&mut self, k: K)
        requires
            old(self).wf(),
            forall|i: int|
                0 <= i < old(self).elems().len() ==> (#[trigger] old(self).elems()[i]).rank()
                    < k.rank(),
        ensures
            final(self).wf(),
            final(self).elems() == old(self).elems().push(k),
            final(self)@ == old(self)@.insert(k),
    {
        let ghost before = self.elems();
        self.items.push(k);
        assert forall|x: K| #[trigger] self@.contains(x) == old(self)@.insert(k).contains(x) by {
            if before.contains(x) {
                let j = choose|j: int| 0 <= j < before.len() && before[j] == x;
                assert(self.elems()[j] == x);
            }
            if x == k {
                assert(self.elems()[before.len() as int] == k);
            }
        }
    }

    /// Removes every entry.
    pub fn clear(&mut self)
        ensures
            final(self).wf(),
            final(self)@ == Set::<K>::empty(),
            final(self).elems() == Seq::<K>::empty(),
    {
        self.items.clear();
    }

    /// A copy with the same elements.
    pub fn copy(&self) -> (c: Self)
        requires
            self.wf(),
        ensures
            c.wf(),
            c.elems() == self.elems(),
            c@ == self@,
    {
        let mut items: Vec<K> = Vec::new();
        let mut i: usize = 0;
        while i < self.items.len()
            invariant
                i <= self.elems().len(),
                items@ == self.elems().subrange(0, i as int),
            decreases self.elems().len() - i,
        {
            items.push(self.items[i]);
            i += 1;
        }
        SortedSet { items }
    }

    /// The elements in increasing order.
    pub fn to_vec(&self) -> (v: Vec<K>)
        ensures
            v@ == self.elems(),
    {
        let mut v: Vec<K> = Vec::new();
        let mut i: usize = 0;
        while i < self.items.len()
            invariant
                i <= self.elems().len(),
                v@ == self.elems().subrange(0, i as int),
            decreases self.elems().len() - i,
        {
            v.push(self.items[i]);
            i += 1;
        }
        v
    }

    /// The set of the given keys.
    pub fn from_vec(v: Vec<K>) -> (s: Self)
        ensures
            s.wf(),
            forall|k: K| #[trigger] s@.contains(k) == v@.contains(k),
    {
        let mut s = SortedSet::new();
        let mut i: usize = 0;
        while i < v.len()
            invariant
                i <= v@.len(),
                s.wf(),
                forall|k: K| #[trigger]
                    s@.contains(k) == (exists|j: int| 0 <= j < i && v@[j] == k),
            decreases v@.len() - i,
        {
            s.insert(v[i]);
            assert forall|k: K| #[trigger]
                s@.contains(k) == (exists|j: int| 0 <= j < i + 1 && v@[j] == k) by {
            }
            i += 1;
        }
        s
    }

    /// Whether both sets hold the same elements.
    pub fn same_elements(&self, other: &Self) -> (b: bool)
        requires
            self.wf(),
            other.wf(),
        ensures
            b == (self@ == other@),
    {
        if self.items.len() != other.items.len() {
            proof {
                if self@ == other@ {
                    assert forall|k: K| self.elems().contains(k) <==> other.elems().contains(k) by {
                        assert(self@.contains(k) == other@.contains(k));
                    }
                    lemma_sorted_same_elements(self.elems(), other.elems());
                }
            }
            return false;
        }
        let mut i: usize = 0;
        while i < self.items.len()
            invariant
                self.wf(),
                other.wf(),
                self.elems().len() == other.elems().len(),
                i <= self.elems().len(),
                forall|j: int| 0 <= j < i ==> self.elems()[j] == other.elems()[j],
            decreases self.elems().len() - i,
        {
            if !self.items[i].rank_eq(&other.items[i]) {
                proof {
                    if self@ == other@ {
                        assert forall|k: K| self.elems().contains(k) <==> other.elems().contains(
                            k,
                        ) by {
                            assert(self@.contains(k) == other@.contains(k));
                        }
                        lemma_sorted_same_elements(self.elems(), other.elems());
                    }
                }
                return false;
            }
            proof {
                K::lemma_rank_injective(self.elems()[i as int], other.elems()[i as int]);
            }
            i += 1;
        }
        assert(self.elems() =~= other.elems());
        true
    }
}

/// Maps with the same keys in the same order and values of the same content
/// are the same map.
pub proof fn lemma_same_pairs_same_map<K: Keyed, V: View>(a: SortedMap<K, V>, b: SortedMap<K, V>)
    requires
        a.wf(),
        b.wf(),
        a.pairs().len() == b.pairs().len(),
        forall|j: int| 0 <= j < a.pairs().len() ==> (#[trigger] a.pairs()[j]).0 == b.pairs()[j].0,
        forall|j: int| 0 <= j < a.pairs().len() ==> (#[trigger] a.pairs()[j]).1@ == b.pairs()[j].1@,
    ensures
        a@ == b@,
        a.keys() == b.keys(),
{
    assert forall|x: K| #[trigger] a@.dom().contains(x) == b@.dom().contains(x) by {
        if pairs_has_key(b.pairs(), x) {
            let j = choose|j: int| 0 <= j < b.pairs().len() && (#[trigger] b.pairs()[j]).0 == x;
            assert(a.pairs()[j].0 == x);
        }
    }
    assert forall|x: K| #[trigger] a@.dom().contains(x) implies a@[x] == b@[x] by {
        let j = choose|j: int| 0 <= j < a.pairs().len() && (#[trigger] a.pairs()[j]).0 == x;
        lemma_pair_in_map(a.pairs(), j);
        lemma_pair_in_map(b.pairs(), j);
    }
}

/// A finite map whose pairs are kept sorted by key rank.
#[derive(Debug, Clone)]
pub struct SortedMap<K, V> {
    entries: Vec<(K, V)>,
}

impl<K: Keyed, V: View> View for SortedMap<K, V> {
    type V = Map<K, V::V>;

    open spec fn view(&self) -> Map<K, V::V> {
        pairs_to_map(self.pairs())
    }
}

impl<K: Keyed, V: View> SortedMap<K, V> {
    /// Whether the keys are strictly sorted by rank.
    pub fn is_sorted(&self) -> (b: bool)
        ensures
            b == self.wf(),
    {
        let n = self.entries.len();
        if n == 0 {
            return true;
        }
        let mut i: usize = 1;
        while i < n
            invariant
                1 <= i <= n,
                n == self.pairs().len(),
                forall|a: int, b: int|
                    0 <= a < b < i ==> (#[trigger] self.pairs()[a]).0.rank() < (
                    #[trigger] self.pairs()[b]).0.rank(),
            decreases n - i,
        {
            if !self.entries[i - 1].0.rank_lt(&self.entries[i].0) {
                assert(!(self.pairs()[i - 1].0.rank() < self.pairs()[i as int].0.rank()));
                return false;
            }
            proof {
                assert forall|a: int, b: int|
                    0 <= a < b < i + 1 implies (#[trigger] self.pairs()[a]).0.rank() < (
                    #[trigger] self.pairs()[b]).0.rank() by {
                    if b == i && a < i - 1 {
                        assert(self.pairs()[a].0.rank() < self.pairs()[i - 1].0.rank());
                    }
                }
            }
            i += 1;
        }
        true
    }

    /// The pairs in increasing key order.
    pub closed spec fn pairs(&self) -> Seq<(K, V)> {
        self.entries@
    }

    /// The keys are strictly sorted by rank.
    pub open spec fn wf(&self) -> bool {
        pairs_sorted(self.pairs())
    }

    /// The keys in increasing order.
    pub open spec fn keys(&self) -> Seq<K> {
        self.pairs().map_values(|e: (K, V)| e.0)
    }

    /// An empty map.
    pub fn new() -> (m: Self)
        ensures
            m.wf(),
            m.pairs() == Seq::<(K, V)>::empty(),
            m@ == Map::<K, V::V>::empty(),
    {
        let m = SortedMap { entries: Vec::new() };
        m
    }

    /// The number of entries.
    pub fn len(&self) -> (n: usize)
        ensures
            n == self.pairs().len(),
    {
        self.entries.len()
    }

    /// Whether there is no entry.
    pub fn is_empty(&self) -> (b: bool)
        requires
            self.wf(),
        ensures
            b == (self.pairs().len() == 0),
            b == (self@ == Map::<K, V::V>::empty()),
    {
        if self.entries.len() == 0 {
            assert(self@ =~= Map::<K, V::V>::empty());
            true
        } else {
            proof {
                lemma_pair_in_map(self.pairs(), 0);
            }
            false
        }
    }

    /// The key of the `i`-th entry in key order.
    pub fn key_at(&self, i: usize) -> (k: K)
        requires
            i < self.pairs().len(),
        ensures
            k == self.pairs()[i as int].0,
    {
        self.entries[i].0
    }

    /// The value of the `i`-th entry in key order.
    pub fn value_at(&self, i: usize) -> (v: &V)
        requires
            i < self.pairs().len(),
        ensures
            *v == self.pairs()[i as int].1,
    {
        &self.entries[i].1
    }

    /// First position whose key does not rank below `k`, and whether it holds `k`.
    fn search(&self, k: &K) -> (res: (usize, bool))
        requires
            self.wf(),
        ensures
            res.0 <= self.pairs().len(),
            forall|j: int| 0 <= j < res.0 ==> (#[trigger] self.pairs()[j]).0.rank() < k.rank(),
            forall|j: int|
                res.0 <= j < self.pairs().len() ==> k.rank() <= (
                #[trigger] self.pairs()[j]).0.rank(),
            res.1 == (res.0 < self.pairs().len() && self.pairs()[res.0 as int].0 == *k),
            res.1 == self@.dom().contains(*k),
    {
        let mut i: usize = 0;
        while i < self.entries.len() && self.entries[i].0.rank_lt(k)
            invariant
                self.wf(),
                i <= self.pairs().len(),
                forall|j: int| 0 <= j < i ==> (#[trigger] self.pairs()[j]).0.rank() < k.rank(),
            decreases self.pairs().len() - i,
        {
            i += 1;
        }
        assert forall|j: int| i <= j < self.pairs().len() implies k.rank() <= (
        #[trigger] self.pairs()[j]).0.rank() by {
        }
        let found = i < self.entries.len() && self.entries[i].0.rank_eq(k);
        proof {
            if i < self.pairs().len() {
                K::lemma_rank_injective(self.pairs()[i as int].0, *k);
            }
        }
        (i, found)
    }

    /// The position of the pair with key `k`, if any.
    pub fn find(&self, k: &K) -> (res: Option<usize>)
        requires
            self.wf(),
        ensures
            res is None <==> !self@.dom().contains(*k),
            res matches Some(i) ==> i < self.pairs().len() && self.pairs()[i as int].0 == *k,
    {
        let (pos, found) = self.search(k);
        if found {
            Some(pos)
        } else {
            None
        }
    }

    /// Whether `k` is a key.
    pub fn contains_key(&self, k: &K) -> (b: bool)
        requires
            self.wf(),
        ensures
            b == self@.dom().contains(*k),
    {
        self.search(k).1
    }

    /// The value under `k`, if any.
    pub fn get(&self, k: &K) -> (res: Option<&V>)
        requires
            self.wf(),
        ensures
            res is None <==> !self@.dom().contains(*k),
            res matches Some(v) ==> v@ == self@[*k],
    {
        let (pos, found) = self.search(k);
        if found {
            proof {
                lemma_pair_in_map(self.pairs(), pos as int);
            }
            Some(&self.entries[pos].1)
        } else {
            None
        }
    }

    /// Puts `v` under `k`, replacing what was there.
    pub fn insert(&mut self, k: K, v: V)
        requires
            old(self).wf(),
        ensures
            final(self).wf(),
            final(self)@ == old(self)@.insert(k, v@),
            old(self)@.dom().contains(k) ==> final(self).pairs().len() == old(self).pairs().len(),
            !old(self)@.dom().contains(k) ==> final(self).pairs().len() == old(self).pairs().len()
                + 1,
            forall|i: int|
                0 <= i < final(self).pairs().len() ==> #[trigger] final(self).pairs()[i] == (k, v)
                    || old(self).pairs().contains(final(self).pairs()[i]),
    {
        let n = self.entries.len();
        if n == 0 || self.entries[n - 1].0.rank_lt(&k) {
            proof {
                assert forall|i: int| 0 <= i < old(self).pairs().len() implies (#[trigger] old(
                    self,
                ).pairs()[i]).0.rank() < k.rank() by {
                }
            }
            self.push_greatest(k, v);
            assert forall|i: int| 0 <= i < self.pairs().len() implies #[trigger] self.pairs()[i]
                == (k, v) || old(self).pairs().contains(self.pairs()[i]) by {
            }
            return;
        }
        let (pos, found) = self.search(&k);
        let ghost before = self.pairs();
        if found {
            self.entries.remove(pos);
            self.entries.insert(pos, (k, v));
            assert forall|i: int, j: int| 0 <= i < j < self.pairs().len() implies (
            #[trigger] self.pairs()[i]).0.rank() < (#[trigger] self.pairs()[j]).0.rank() by {
            }
            assert forall|x: K| #[trigger]
                self@.dom().contains(x) == old(self)@.insert(k, v@).dom().contains(x) by {
                if pairs_has_key(before, x) {
                    let i = choose|i: int| 0 <= i < before.len() && (#[trigger] before[i]).0 == x;
                    assert(self.pairs()[i].0 == x);
                }
            }
            assert forall|x: K| #[trigger] self@.dom().contains(x) implies self@[x] == old(
                self,
            )@.insert(k, v@)[x] by {
                let i = choose|i: int| 0 <= i < self.pairs().len() && (#[trigger] self.pairs()[i]).0 == x;
                lemma_pair_in_map(self.pairs(), i);
                if i != pos {
                    lemma_pair_in_map(before, i);
                }
            }
            assert forall|i: int| 0 <= i < self.pairs().len() implies #[trigger] self.pairs()[i]
                == (k, v) || before.contains(self.pairs()[i]) by {
            }
        } else {
            self.entries.insert(pos, (k, v));
            assert forall|i: int, j: int| 0 <= i < j < self.pairs().len() implies (
            #[trigger] self.pairs()[i]).0.rank() < (#[trigger] self.pairs()[j]).0.rank() by {
                if pos <= j && i == pos {
                    K::lemma_rank_injective(k, before[j - 1].0);
                }
            }
            assert forall|x: K| #[trigger]
                self@.dom().contains(x) == old(self)@.insert(k, v@).dom().contains(x) by {
                if pairs_has_key(before, x) {
                    let i = choose|i: int| 0 <= i < before.len() && (#[trigger] before[i]).0 == x;
                    if i < pos {
                        assert(self.pairs()[i].0 == x);
                    } else {
                        assert(self.pairs()[i + 1].0 == x);
                    }
                }
                if x == k {
                    assert(self.pairs()[pos as int].0 == k);
                }
            }
            assert forall|x: K| #[trigger] self@.dom().contains(x) implies self@[x] == old(
                self,
            )@.insert(k, v@)[x] by {
                let i = choose|i: int| 0 <= i < self.pairs().len() && (#[trigger] self.pairs()[i]).0 == x;
                lemma_pair_in_map(self.pairs(), i);
                if i < pos {
                    lemma_pair_in_map(before, i);
                } else if i > pos {
                    lemma_pair_in_map(before, i - 1);
                }
            }
            assert forall|i: int| 0 <= i < self.pairs().len() implies #[trigger] self.pairs()[i]
                == (k, v) || before.contains(self.pairs()[i]) by {
            }
        }
    }

    /// Takes the pair with key `k` out, returning its value.
    pub fn remove(&mut self, k: &K) -> (res: Option<V>)
        requires
            old(self).wf(),
        ensures
            final(self).wf(),
            final(self)@ == old(self)@.remove(*k),
            res is None <==> !old(self)@.dom().contains(*k),
            res matches Some(v) ==> v@ == old(self)@[*k],
            old(self)@.dom().contains(*k) ==> final(self).pairs().len() == old(self).pairs().len()
                - 1,
            !old(self)@.dom().contains(*k) ==> *final(self) == *old(self),
            forall|i: int|
                0 <= i < final(self).pairs().len() ==> old(self).pairs().contains(
                    #[trigger] final(self).pairs()[i],
                ),
    {
        let (pos, found) = self.search(k);
        if !found {
            None
        } else {
            proof {
                lemma_pair_in_map(self.pairs(), pos as int);
            }
            let (_, v) = self.remove_at(pos);
            assert forall|i: int| 0 <= i < self.pairs().len() implies old(self).pairs().contains(
                #[trigger] self.pairs()[i],
            ) by {
            }
            Some(v)
        }
    }

    /// Replaces the value at position `i`, keeping its key; returns the old value.
    pub fn replace_at(&mut self, i: usize, v: V) -> (prev: V)
        requires
            old(self).wf(),
            i < old(self).pairs().len(),
        ensures
            final(self).wf(),
            final(self).pairs() == old(self).pairs().update(
                i as int,
                (old(self).pairs()[i as int].0, v),
            ),
            final(self)@ == old(self)@.insert(old(self).pairs()[i as int].0, v@),
            prev == old(self).pairs()[i as int].1,
    {
        let ghost before = self.pairs();
        let (k, prev) = self.entries.remove(i);
        self.entries.insert(i, (k, v));
        assert forall|a: int, b: int| 0 <= a < b < self.pairs().len() implies (
        #[trigger] self.pairs()[a]).0.rank() < (#[trigger] self.pairs()[b]).0.rank() by {
        }
        assert forall|x: K| #[trigger]
            self@.dom().contains(x) == old(self)@.insert(k, v@).dom().contains(x) by {
            if pairs_has_key(before, x) {
                let j = choose|j: int| 0 <= j < before.len() && (#[trigger] before[j]).0 == x;
                assert(self.pairs()[j].0 == x);
            }
        }
        assert forall|x: K| #[trigger] self@.dom().contains(x) implies self@[x] == old(
            self,
        )@.insert(k, v@)[x] by {
            let j = choose|j: int| 0 <= j < self.pairs().len() && (#[trigger] self.pairs()[j]).0 == x;
            lemma_pair_in_map(self.pairs(), j);
            if j != i {
                lemma_pair_in_map(before, j);
            }
        }
        prev
    }

    /// Removes the pair at position `i`.
    pub fn remove_at(&mut self, i: usize) -> (pair: (K, V))
        requires
            old(self).wf(),
            i < old(self).pairs().len(),
        ensures
            final(self).wf(),
            final(self).pairs() == old(self).pairs().remove(i as int),
            final(self)@ == old(self)@.remove(old(self).pairs()[i as int].0),
            pair == old(self).pairs()[i as int],
    {
        let ghost before = self.pairs();
        let ghost k = before[i as int].0;
        let pair = self.entries.remove(i);
        assert forall|a: int, b: int| 0 <= a < b < self.pairs().len() implies (
        #[trigger] self.pairs()[a]).0.rank() < (#[trigger] self.pairs()[b]).0.rank() by {
        }
        assert forall|x: K| #[trigger]
            self@.dom().contains(x) == old(self)@.remove(k).dom().contains(x) by {
            if pairs_has_key(before, x) && x != k {
                let j = choose|j: int| 0 <= j < before.len() && (#[trigger] before[j]).0 == x;
                if j < i {
                    assert(self.pairs()[j].0 == x);
                } else {
                    assert(self.pairs()[j - 1].0 == x);
                }
            }
        }
        assert forall|x: K| #[trigger] self@.dom().contains(x) implies self@[x] == old(
            self,
        )@.remove(k)[x] by {
            let j = choose|j: int| 0 <= j < self.pairs().len() && (#[trigger] self.pairs()[j]).0 == x;
            lemma_pair_in_map(self.pairs(), j);
            if j < i {
                lemma_pair_in_map(before, j);
            } else {
                lemma_pair_in_map(before, j + 1);
            }
        }
        pair
    }

    /// Position of the pair with the greatest key, if any.
    pub fn last_index(&self) -> (res: Option<usize>)
        ensures
            res is None <==> self.pairs().len() == 0,
            res matches Some(i) ==> i == self.pairs().len() - 1,
    {
        if self.entries.len() == 0 {
            None
        } else {
            Some(self.entries.len() - 1)
        }
    }

    /// Appends a pair whose key ranks above every key held.
    pub fn push_greatest(&mut self, k: K, v: V)
        requires
            old(self).wf(),
            forall|i: int|
                0 <= i < old(self).pairs().len() ==> (#[trigger] old(self).pairs()[i]).0.rank()
                    < k.rank(),
        ensures
            final(self).wf(),
            final(self).pairs() == old(self).pairs().push((k, v)),
            final(self)@ == old(self)@.insert(k, v@),
    {
        let ghost before = self.pairs();
        self.entries.push((k, v));
        assert forall|x: K| #[trigger]
            self@.dom().contains(x) == old(self)@.insert(k, v@).dom().contains(x) by {
            if pairs_has_key(before, x) {
                let j = choose|j: int| 0 <= j < before.len() && (#[trigger] before[j]).0 == x;
                assert(self.pairs()[j].0 == x);
            }
            if x == k {
                assert(self.pairs()[before.len() as int].0 == k);
            }
        }
        assert forall|x: K| #[trigger] self@.dom().contains(x) implies self@[x] == old(
            self,
        )@.insert(k, v@)[x] by {
            let j = choose|j: int| 0 <= j < self.pairs().len() && (#[trigger] self.pairs()[j]).0 == x;
            lemma_pair_in_map(self.pairs(), j);
            if j < before.len() {
                lemma_pair_in_map(before, j);
            }
        }
    }

    /// Removes every entry.
    pub fn clear(&mut self)
        ensures
            final(self).wf(),
            final(self)@ == Map::<K, V::V>::empty(),
            final(self).pairs() == Seq::<(K, V)>::empty(),
    {
        self.entries.clear();
    }

    /// Takes every pair out, leaving the map empty.
    pub fn take_all(&mut self) -> (pairs: Vec<(K, V)>)
        requires
            old(self).wf(),
        ensures
            final(self).wf(),
            final(self)@ == Map::<K, V::V>::empty(),
            final(self).pairs() == Seq::<(K, V)>::empty(),
            pairs@ == old(self).pairs(),
    {
        let mut pairs: Vec<(K, V)> = Vec::new();
        std::mem::swap(&mut pairs, &mut self.entries);
        pairs
    }
}

} // verus!
