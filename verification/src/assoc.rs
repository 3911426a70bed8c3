//! A map over an unordered list of entries, for keys that can only be compared.

use vstd::prelude::*;

use crate::net::{IpAddr, IpNet};

verus! {

/// A key: copied freely and compared for equality.
pub trait Key: Copy {
    /// Whether the two keys are the same.
    fn same(&self, other: &Self) -> (r: bool)
        ensures
            r == (*self == *other),
    ;
}

impl Key for IpNet {
    fn same(&self, other: &Self) -> (r: bool) {
        *self == *other
    }
}

impl Key for IpAddr {
    fn same(&self, other: &Self) -> (r: bool) {
        *self == *other
    }
}

/// Some entry of `s` has the key `k`.
pub open spec fn has_key<K, V>(s: Seq<(K, V)>, k: K) -> bool {
    exists|i: int| 0 <= i < s.len() && (#[trigger] s[i]).0 == k
}

/// The map that a list of entries stands for.
pub open spec fn map_of<K, V>(s: Seq<(K, V)>) -> Map<K, V>
    decreases s.len(),
{
    if s.len() == 0 {
        Map::empty()
    } else {
        map_of(s.drop_last()).insert(s.last().0, s.last().1)
    }
}

/// No key occurs twice in `s`.
pub open spec fn distinct_keys<K, V>(s: Seq<(K, V)>) -> bool {
    forall|i: int, j: int| 0 <= i < j < s.len() ==> (#[trigger] s[i]).0 != (#[trigger] s[j]).0
}

/// The keys of the map are the keys of the list, and where none occurs twice
/// each has the value that stands beside it.
pub proof fn lemma_map_of<K, V>(s: Seq<(K, V)>)
    ensures
        forall|k: K| #[trigger] map_of(s).dom().contains(k) <==> has_key(s, k),
        distinct_keys(s) ==> forall|i: int|
            0 <= i < s.len() ==> map_of(s)[(#[trigger] s[i]).0] == s[i].1,
        map_of(s).dom().finite(),
    decreases s.len(),
{
    if s.len() > 0 {
        let t = s.drop_last();
        lemma_map_of(t);
        assert forall|k: K| #[trigger] map_of(s).dom().contains(k) <==> has_key(s, k) by {
            if has_key(t, k) {
                let i = choose|i: int| 0 <= i < t.len() && (#[trigger] t[i]).0 == k;
                assert(s[i].0 == k);
            }
            if s.last().0 == k {
                assert(s[s.len() - 1].0 == k);
            }
            if has_key(s, k) && s.last().0 != k {
                let i = choose|i: int| 0 <= i < s.len() && (#[trigger] s[i]).0 == k;
                assert(t[i].0 == k);
            }
        }
        if distinct_keys(s) {
            assert forall|i: int, j: int| 0 <= i < j < t.len() implies (#[trigger] t[i]).0 != (
            #[trigger] t[j]).0 by {
                assert(s[i].0 != s[j].0);
            }
            assert forall|i: int| 0 <= i < s.len() implies map_of(s)[(#[trigger] s[i]).0]
                == s[i].1 by {
                if i < t.len() {
                    assert(t[i] == s[i]);
                    assert(s[i].0 != s[s.len() - 1].0);
                }
            }
        }
    }
}

/// Two lists without repeated keys that hold the same entries stand for the
/// same map.
pub proof fn lemma_map_ext<K, V>(s: Seq<(K, V)>, m: Map<K, V>)
    requires
        distinct_keys(s),
        forall|i: int|
            0 <= i < s.len() ==> m.dom().contains((#[trigger] s[i]).0) && m[s[i].0] == s[i].1,
        forall|k: K| #[trigger] m.dom().contains(k) ==> has_key(s, k),
    ensures
        map_of(s) == m,
{
    lemma_map_of(s);
    assert forall|k: K| #[trigger] map_of(s).dom().contains(k) <==> m.dom().contains(k) by {
        if has_key(s, k) {
            let i = choose|i: int| 0 <= i < s.len() && (#[trigger] s[i]).0 == k;
            assert(m.dom().contains(s[i].0));
        }
    }
    assert forall|k: K| map_of(s).dom().contains(k) implies #[trigger] map_of(s)[k] == m[k] by {
        let i = choose|i: int| 0 <= i < s.len() && (#[trigger] s[i]).0 == k;
        assert(map_of(s)[s[i].0] == s[i].1);
    }
    assert(map_of(s) =~= m);
}

/// Appending an entry for a key that is not there inserts it.
pub proof fn lemma_push<K, V>(s: Seq<(K, V)>, k: K, v: V)
    requires
        distinct_keys(s),
        !has_key(s, k),
    ensures
        distinct_keys(s.push((k, v))),
        map_of(s.push((k, v))) == map_of(s).insert(k, v),
{
    let t = s.push((k, v));
    assert(t.drop_last() =~= s);
    assert forall|i: int, j: int| 0 <= i < j < t.len() implies (#[trigger] t[i]).0 != (
    #[trigger] t[j]).0 by {
        assert(t[i] == s[i]);
        if j < s.len() {
            assert(t[j] == s[j]);
        }
    }
}

/// Replacing the value beside a key inserts it anew.
pub proof fn lemma_update<K, V>(s: Seq<(K, V)>, i: int, v: V)
    requires
        distinct_keys(s),
        0 <= i < s.len(),
    ensures
        distinct_keys(s.update(i, (s[i].0, v))),
        map_of(s.update(i, (s[i].0, v))) == map_of(s).insert(s[i].0, v),
{
    let t = s.update(i, (s[i].0, v));
    let m = map_of(s).insert(s[i].0, v);
    lemma_map_of(s);
    assert forall|a: int, b: int| 0 <= a < b < t.len() implies (#[trigger] t[a]).0 != (
    #[trigger] t[b]).0 by {
        assert(s[a].0 != s[b].0);
    }
    assert forall|j: int| 0 <= j < t.len() implies m.dom().contains((#[trigger] t[j]).0)
        && m[t[j].0] == t[j].1 by {
        assert(has_key(s, s[j].0));
        if j != i {
            assert(s[j].0 != s[i].0);
        }
    }
    assert forall|k: K| #[trigger] m.dom().contains(k) implies has_key(t, k) by {
        if k == s[i].0 {
            assert(t[i].0 == k);
        } else {
            let j = choose|j: int| 0 <= j < s.len() && (#[trigger] s[j]).0 == k;
            assert(t[j].0 == k);
        }
    }
    lemma_map_ext(t, m);
}

/// Taking an entry out of the list removes its key.
pub proof fn lemma_remove<K, V>(s: Seq<(K, V)>, i: int)
    requires
        distinct_keys(s),
        0 <= i < s.len(),
    ensures
        distinct_keys(s.remove(i)),
        map_of(s.remove(i)) == map_of(s).remove(s[i].0),
{
    let t = s.remove(i);
    let m = map_of(s).remove(s[i].0);
    lemma_map_of(s);
    assert forall|j: int| 0 <= j < t.len() implies #[trigger] t[j] == (if j < i {
        s[j]
    } else {
        s[j + 1]
    }) by {}
    assert forall|a: int, b: int| 0 <= a < b < t.len() implies (#[trigger] t[a]).0 != (
    #[trigger] t[b]).0 by {
        let x = if a < i { a } else { a + 1 };
        let y = if b < i { b } else { b + 1 };
        assert(s[x].0 != s[y].0);
    }
    assert forall|j: int| 0 <= j < t.len() implies m.dom().contains((#[trigger] t[j]).0)
        && m[t[j].0] == t[j].1 by {
        let x = if j < i { j } else { j + 1 };
        assert(has_key(s, s[x].0));
        assert(s[x].0 != s[i].0);
    }
    assert forall|k: K| #[trigger] m.dom().contains(k) implies has_key(t, k) by {
        let x = choose|x: int| 0 <= x < s.len() && (#[trigger] s[x]).0 == k;
        if x < i {
            assert(t[x].0 == k);
        } else {
            assert(t[x - 1].0 == k);
        }
    }
    lemma_map_ext(t, m);
}

/// Two lists with the same keys, whose values look alike under `f` and `g`, stand
/// for maps that look alike under `f` and `g`.
pub proof fn lemma_map_values<K, V, W, X>(
    s: Seq<(K, V)>,
    t: Seq<(K, W)>,
    f: spec_fn(V) -> X,
    g: spec_fn(W) -> X,
)
    requires
        s.len() == t.len(),
        forall|i: int| 0 <= i < s.len() ==> (#[trigger] t[i]).0 == s[i].0,
        forall|i: int| 0 <= i < s.len() ==> g((#[trigger] t[i]).1) == f(s[i].1),
    ensures
        map_of(t).map_values(g) == map_of(s).map_values(f),
        distinct_keys(s) ==> distinct_keys(t),
    decreases s.len(),
{
    if s.len() > 0 {
        let (a, b) = (s.drop_last(), t.drop_last());
        assert forall|i: int| 0 <= i < a.len() implies (#[trigger] b[i]).0 == a[i].0 && g(b[i].1)
            == f(a[i].1) by {
            assert(b[i] == t[i]);
        }
        lemma_map_values(a, b, f, g);
        let n = s.len() - 1;
        assert(t[n].0 == s[n].0 && g(t[n].1) == f(s[n].1));
        assert(map_of(t).map_values(g) =~= map_of(b).map_values(g).insert(t[n].0, g(t[n].1)));
        assert(map_of(s).map_values(f) =~= map_of(a).map_values(f).insert(s[n].0, f(s[n].1)));
    } else {
        assert(map_of(t).map_values(g) =~= map_of(s).map_values(f));
    }
    if distinct_keys(s) {
        assert forall|i: int, j: int| 0 <= i < j < t.len() implies (#[trigger] t[i]).0 != (
        #[trigger] t[j]).0 by {
            assert(s[i].0 != s[j].0);
        }
    }
}

/// A list without repeated keys has as many entries as its map has keys.
pub proof fn lemma_map_len<K, V>(s: Seq<(K, V)>)
    requires
        distinct_keys(s),
    ensures
        map_of(s).dom().finite(),
        map_of(s).dom().len() == s.len(),
    decreases s.len(),
{
    lemma_map_of(s);
    if s.len() > 0 {
        let t = s.drop_last();
        assert forall|i: int, j: int| 0 <= i < j < t.len() implies (#[trigger] t[i]).0 != (
        #[trigger] t[j]).0 by {
            assert(s[i].0 != s[j].0);
        }
        lemma_map_len(t);
        lemma_map_of(t);
        let k = s.last().0;
        if map_of(t).dom().contains(k) {
            let i = choose|i: int| 0 <= i < t.len() && (#[trigger] t[i]).0 == k;
            assert(s[i].0 != s[s.len() - 1].0);
        }
        assert(map_of(s).dom() =~= map_of(t).dom().insert(k));
    } else {
        assert(map_of(s).dom() =~= Set::empty());
    }
}

/// A map from `K` to `V`.
#[derive(Clone, Debug)]
pub struct AssocMap<K, V> {
    pub entries: Vec<(K, V)>,
}

impl<K, V> View for AssocMap<K, V> {
    type V = Map<K, V>;

    open spec fn view(&self) -> Map<K, V> {
        map_of(self.entries@)
    }
}

impl<K: Key, V> AssocMap<K, V> {
    /// No key has two entries.
    pub open spec fn wf(self) -> bool {
        distinct_keys(self.entries@)
    }

    /// The empty map.
    pub fn new() -> (r: Self)
        ensures
            r.wf(),
            r@ == Map::<K, V>::empty(),
            r.entries@.len() == 0,
    {
        AssocMap { entries: Vec::new() }
    }

    /// Where the entry for `k` is kept.
    pub fn position(&self, k: &K) -> (r: Option<usize>)
        ensures
            match r {
                Some(i) => i < self.entries@.len() && self.entries@[i as int].0 == *k,
                None => !has_key(self.entries@, *k),
            },
            r is Some <==> self@.dom().contains(*k),
    {
        proof {
            lemma_map_of(self.entries@);
        }
        let mut i: usize = 0;
        while i < self.entries.len()
            invariant
                i <= self.entries@.len(),
                forall|k: K|
                    #[trigger] self@.dom().contains(k) <==> has_key(self.entries@, k),
                forall|j: int| 0 <= j < i ==> (#[trigger] self.entries@[j]).0 != *k,
            decreases self.entries@.len() - i,
        {
            if self.entries[i].0.same(k) {
                assert(has_key(self.entries@, *k));
                return Some(i);
            }
            i += 1;
        }
        None
    }

    /// The value of `k`.
    pub fn get(&self, k: &K) -> (r: Option<&V>)
        requires
            self.wf(),
        ensures
            match r {
                Some(v) => self@.dom().contains(*k) && self@[*k] == *v,
                None => !self@.dom().contains(*k),
            },
    {
        proof {
            lemma_map_of(self.entries@);
        }
        match self.position(k) {
            Some(i) => Some(&self.entries[i].1),
            None => None,
        }
    }

    /// Sets the value of `k`.
    pub fn insert(&mut self, k: K, v: V)
        requires
            old(self).wf(),
        ensures
            final(self).wf(),
            final(self)@ == old(self)@.insert(k, v),
    {
        let ghost start = self.entries@;
        match self.position(&k) {
            Some(i) => {
                proof {
                    lemma_update(start, i as int, v);
                }
                self.entries.set(i, (k, v));
            },
            None => {
                proof {
                    lemma_push(start, k, v);
                }
                self.entries.push((k, v));
            },
        }
    }

    /// Takes the value of `k` out of the map.
    pub fn take(&mut self, k: &K) -> (r: Option<V>)
        requires
            old(self).wf(),
        ensures
            final(self).wf(),
            final(self)@ == old(self)@.remove(*k),
            match r {
                Some(v) => old(self)@.dom().contains(*k) && old(self)@[*k] == v,
                None => !old(self)@.dom().contains(*k),
            },
    {
        let ghost start = self.entries@;
        match self.position(k) {
            Some(i) => {
                proof {
                    lemma_map_of(start);
                    lemma_remove(start, i as int);
                }
                let (_, v) = self.entries.remove(i);
                Some(v)
            },
            None => {
                assert(self@.remove(*k) =~= self@);
                None
            },
        }
    }
}

/// What a list of pairs says of a key: the value of the last pair with that key, and
/// nothing where no pair has it.
pub proof fn law_last_pair_counts<K, V>(s: Seq<(K, V)>, k: K, v: V, other: K)
    requires
        other != k,
    ensures
        map_of(Seq::<(K, V)>::empty()).dom() == Set::<K>::empty(),
        map_of(s.push((k, v))).dom().contains(k),
        map_of(s.push((k, v)))[k] == v,
        map_of(s.push((k, v))).dom().contains(other) <==> map_of(s).dom().contains(other),
        map_of(s).dom().contains(other) ==> map_of(s.push((k, v)))[other] == map_of(s)[other],
{
    assert(map_of(Seq::<(K, V)>::empty()).dom() =~= Set::<K>::empty());
    assert(s.push((k, v)).drop_last() =~= s);
}

/// Where no key occurs twice, every pair says what its key stands for, and nothing
/// else does.
pub proof fn law_pairs_are_the_map<K, V>(s: Seq<(K, V)>)
    requires
        forall|i: int, j: int|
            0 <= i < j < s.len() ==> (#[trigger] s[i]).0 != (#[trigger] s[j]).0,
    ensures
        forall|i: int|
            0 <= i < s.len() ==> map_of(s).dom().contains((#[trigger] s[i]).0) && map_of(
                s,
            )[s[i].0] == s[i].1,
        forall|k: K| #[trigger]
            map_of(s).dom().contains(k) ==> exists|i: int|
                0 <= i < s.len() && (#[trigger] s[i]).0 == k,
    decreases s.len(),
{
    if s.len() > 0 {
        let t = s.drop_last();
        assert forall|i: int, j: int| 0 <= i < j < t.len() implies (#[trigger] t[i]).0 != (
        #[trigger] t[j]).0 by {
            assert(s[i].0 != s[j].0);
        }
        law_pairs_are_the_map(t);
        assert forall|i: int| 0 <= i < s.len() implies map_of(s).dom().contains(
            (#[trigger] s[i]).0,
        ) && map_of(s)[s[i].0] == s[i].1 by {
            if i < t.len() {
                assert(t[i] == s[i]);
                assert(s[i].0 != s[s.len() - 1].0);
            }
        }
        assert forall|k: K| #[trigger] map_of(s).dom().contains(k) implies exists|i: int|
            0 <= i < s.len() && (#[trigger] s[i]).0 == k by {
            if k == s.last().0 {
                assert(s[s.len() - 1].0 == k);
            } else {
                assert(map_of(t).dom().contains(k));
                let i = choose|i: int| 0 <= i < t.len() && (#[trigger] t[i]).0 == k;
                assert(s[i].0 == k);
            }
        }
    }
}

} // verus!
