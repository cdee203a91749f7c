//! Ordered collections: a map from text that keeps its keys sorted, and a
//! stable sort.

use crate::text::{lemma_text_lt_total, lemma_text_lt_transitive, str_eq, str_lt, text_lt, texts};
use vstd::prelude::*;

verus! {

/// Whether keys come in strictly ascending order.
pub open spec fn ascending(keys: Seq<Seq<char>>) -> bool {
    forall|i: int, j: int| 0 <= i < j < keys.len() ==> text_lt(#[trigger] keys[i], #[trigger] keys[j])
}

/// The value of the entry with the given key.
pub open spec fn lookup<V>(entries: Seq<(Seq<char>, V)>, key: Seq<char>) -> Option<V>
    decreases entries.len(),
{
    if entries.len() == 0 {
        None
    } else if entries.last().0 == key {
        Some(entries.last().1)
    } else {
        lookup(entries.drop_last(), key)
    }
}

/// The keys of a list of entries.
pub open spec fn keys_of<V>(entries: Seq<(Seq<char>, V)>) -> Seq<Seq<char>> {
    entries.map_values(|e: (Seq<char>, V)| e.0)
}

/// A lookup finds an entry exactly where there is one with the key.
pub proof fn lemma_lookup<V>(entries: Seq<(Seq<char>, V)>, key: Seq<char>)
    ensures
        match lookup(entries, key) {
            Some(v) => exists|i: int| 0 <= i < entries.len() && #[trigger] entries[i] == (key, v),
            None => forall|i: int| 0 <= i < entries.len() ==> (#[trigger] entries[i]).0 != key,
        },
    decreases entries.len(),
{
    if entries.len() > 0 {
        let rest = entries.drop_last();
        lemma_lookup(rest, key);
        if entries.last().0 == key {
            assert(entries[entries.len() - 1] == (key, entries.last().1));
        } else {
            match lookup(entries, key) {
                Some(v) => {
                    let i = choose|i: int| 0 <= i < rest.len() && #[trigger] rest[i] == (key, v);
                    assert(entries[i] == (key, v));
                },
                None => {
                    assert forall|i: int| 0 <= i < entries.len() implies (#[trigger] entries[i]).0
                        != key by {
                        if i < rest.len() {
                            assert(rest[i] == entries[i]);
                        }
                    }
                },
            }
        }
    }
}

/// In an ascending list the entry at `i` is the one its key looks up.
pub proof fn lemma_lookup_at<V>(entries: Seq<(Seq<char>, V)>, i: int)
    requires
        ascending(keys_of(entries)),
        0 <= i < entries.len(),
    ensures
        lookup(entries, entries[i].0) == Some(entries[i].1),
{
    let key = entries[i].0;
    lemma_lookup(entries, key);
    match lookup(entries, key) {
        Some(v) => {
            let j = choose|j: int| 0 <= j < entries.len() && #[trigger] entries[j] == (key, v);
            let ks = keys_of(entries);
            lemma_text_lt_total(ks[i], ks[j]);
            if i < j {
                assert(text_lt(ks[i], ks[j]));
            } else if j < i {
                assert(text_lt(ks[j], ks[i]));
            }
        },
        None => {
            assert(entries[i].0 != key);
        },
    }
}

/// An ascending list of entries is determined by what it looks up.
pub proof fn law_entries_are_determined<V>(a: Seq<(Seq<char>, V)>, b: Seq<(Seq<char>, V)>)
    requires
        ascending(keys_of(a)),
        ascending(keys_of(b)),
        forall|k: Seq<char>| #[trigger] lookup(a, k) == lookup(b, k),
    ensures
        a == b,
    decreases a.len(),
{
    if a.len() == 0 {
        if b.len() > 0 {
            lemma_lookup_at(b, 0);
            assert(lookup(a, b[0].0) == lookup(b, b[0].0));
        }
        assert(a =~= b);
    } else if b.len() == 0 {
        lemma_lookup_at(a, 0);
        assert(lookup(a, a[0].0) == lookup(b, a[0].0));
    } else {
        let x = a.last();
        let y = b.last();
        lemma_lookup_at(a, a.len() - 1);
        lemma_lookup_at(b, b.len() - 1);
        lemma_last_is_greatest(a, y.0);
        lemma_last_is_greatest(b, x.0);
        assert(lookup(a, x.0) == lookup(b, x.0));
        assert(lookup(a, y.0) == lookup(b, y.0));
        lemma_text_lt_total(x.0, y.0);
        assert(x.0 == y.0);
        assert(x == y);
        let c = a.drop_last();
        let d = b.drop_last();
        assert(ascending(keys_of(c))) by {
            assert forall|i: int, j: int| 0 <= i < j < keys_of(c).len() implies text_lt(
                #[trigger] keys_of(c)[i],
                #[trigger] keys_of(c)[j],
            ) by {
                assert(keys_of(a)[i] == keys_of(c)[i] && keys_of(a)[j] == keys_of(c)[j]);
            }
        }
        assert(ascending(keys_of(d))) by {
            assert forall|i: int, j: int| 0 <= i < j < keys_of(d).len() implies text_lt(
                #[trigger] keys_of(d)[i],
                #[trigger] keys_of(d)[j],
            ) by {
                assert(keys_of(b)[i] == keys_of(d)[i] && keys_of(b)[j] == keys_of(d)[j]);
            }
        }
        assert forall|k: Seq<char>| #[trigger] lookup(c, k) == lookup(d, k) by {
            assert(lookup(a, k) == lookup(b, k));
            if k == x.0 {
                lemma_lookup(c, k);
                lemma_lookup(d, k);
                if lookup(c, k) is Some {
                    let i = choose|i: int|
                        0 <= i < c.len() && #[trigger] c[i] == (k, lookup(c, k)->Some_0);
                    assert(text_lt(keys_of(a)[i], keys_of(a)[a.len() - 1]));
                    lemma_text_lt_total(k, k);
                }
                if lookup(d, k) is Some {
                    let i = choose|i: int|
                        0 <= i < d.len() && #[trigger] d[i] == (k, lookup(d, k)->Some_0);
                    assert(text_lt(keys_of(b)[i], keys_of(b)[b.len() - 1]));
                    lemma_text_lt_total(k, k);
                }
            }
        }
        law_entries_are_determined(c, d);
        assert(a =~= c.push(x));
        assert(b =~= d.push(y));
    }
}

proof fn lemma_last_is_greatest<V>(a: Seq<(Seq<char>, V)>, k: Seq<char>)
    requires
        ascending(keys_of(a)),
        a.len() > 0,
    ensures
        lookup(a, k) is Some ==> k == a.last().0 || text_lt(k, a.last().0),
{
    lemma_lookup(a, k);
    if lookup(a, k) is Some {
        let i = choose|i: int| 0 <= i < a.len() && #[trigger] a[i] == (k, lookup(a, k)->Some_0);
        if i < a.len() - 1 {
            assert(text_lt(keys_of(a)[i], keys_of(a)[a.len() - 1]));
        }
    }
}

/// A map from text to values with its keys in ascending order.
#[derive(Debug)]
pub struct Ordered<V> {
    entries: Vec<(String, V)>,
}

impl<V> View for Ordered<V> {
    type V = Seq<(Seq<char>, V)>;

    closed spec fn view(&self) -> Seq<(Seq<char>, V)> {
        self.entries@.map_values(|e: (String, V)| (e.0@, e.1))
    }
}

impl<V> Ordered<V> {
    /// Well-formed: the keys ascend.
    pub open spec fn wf(&self) -> bool {
        ascending(keys_of(self@))
    }

    /// The empty map.
    pub fn new() -> (r: Self)
        ensures
            r.wf(),
            r@ == Seq::<(Seq<char>, V)>::empty(),
    {
        let r = Ordered { entries: Vec::new() };
        assert(r@ =~= Seq::<(Seq<char>, V)>::empty());
        r
    }

    /// The number of entries.
    pub fn len(&self) -> (r: usize)
        ensures
            r == self@.len(),
    {
        self.entries.len()
    }

    /// The key of the entry at `i`.
    pub fn key_at(&self, i: usize) -> (r: &String)
        requires
            i < self@.len(),
        ensures
            r@ == self@[i as int].0,
    {
        &self.entries[i].0
    }

    /// The value of the entry at `i`.
    pub fn value_at(&self, i: usize) -> (r: &V)
        requires
            i < self@.len(),
        ensures
            *r == self@[i as int].1,
    {
        &self.entries[i].1
    }

    /// The value for a key.
    pub fn get(&self, key: &str) -> (r: Option<&V>)
        ensures
            match r {
                Some(v) => lookup(self@, key@) == Some(*v),
                None => lookup(self@, key@) is None,
            },
    {
        let ghost all = self@;
        let mut n: usize = self.entries.len();
        assert(all.take(n as int) =~= all);
        while n > 0
            invariant
                n <= self.entries.len(),
                all == self@,
                lookup(all, key@) == lookup(all.take(n as int), key@),
            decreases n,
        {
            assert(all.take(n as int).drop_last() =~= all.take(n - 1));
            assert(all.take(n as int).last() == all[n - 1]);
            if str_eq(self.entries[n - 1].0.as_str(), key) {
                return Some(&self.entries[n - 1].1);
            }
            n -= 1;
        }
        None
    }

    /// Sets the value for a key.
    pub fn insert(&mut self, key: String, value: V)
        requires
            old(self).wf(),
        ensures
            final(self).wf(),
            forall|k: Seq<char>| #[trigger]
                lookup(final(self)@, k) == (if k == key@ {
                    Some(value)
                } else {
                    lookup(old(self)@, k)
                }),
    {
        let ghost before = self@;
        let mut i: usize = 0;
        while i < self.entries.len() && str_lt(self.entries[i].0.as_str(), key.as_str())
            invariant
                self@ == before,
                i <= self.entries.len(),
                forall|j: int| 0 <= j < i ==> text_lt((#[trigger] before[j]).0, key@),
            decreases self.entries.len() - i,
        {
            assert(before[i as int].0 == self.entries@[i as int].0@);
            i += 1;
        }
        assert(before.len() == self.entries@.len());
        if i < self.entries.len() && str_eq(self.entries[i].0.as_str(), key.as_str()) {
            assert(before[i as int].0 == key@);
            self.entries.set(i, (key, value));
            assert(self@ =~= before.update(i as int, (key@, value)));
            proof {
                lemma_set_entry(before, i as int, value);
            }
        } else {
            proof {
                if i < before.len() {
                    assert(before[i as int].0 == self.entries@[i as int].0@);
                    lemma_text_lt_total(before[i as int].0, key@);
                }
            }
            self.entries.insert(i, (key, value));
            assert(self@ =~= before.insert(i as int, (key@, value)));
            proof {
                lemma_new_entry_at(before, i as int, key@, value);
            }
        }
    }
}

/// Setting the value of an entry.
proof fn lemma_set_entry<V>(a: Seq<(Seq<char>, V)>, i: int, value: V)
    requires
        ascending(keys_of(a)),
        0 <= i < a.len(),
    ensures
        ({
            let b = a.update(i, (a[i].0, value));
            &&& ascending(keys_of(b))
            &&& forall|k: Seq<char>| #[trigger]
                lookup(b, k) == (if k == a[i].0 {
                    Some(value)
                } else {
                    lookup(a, k)
                })
        }),
{
    let b = a.update(i, (a[i].0, value));
    assert(keys_of(b) =~= keys_of(a));
    assert forall|k: Seq<char>| #[trigger] lookup(b, k) == (if k == a[i].0 {
        Some(value)
    } else {
        lookup(a, k)
    }) by {
        lemma_lookup(a, k);
        lemma_lookup(b, k);
        if k == a[i].0 {
            lemma_lookup_at(b, i);
        } else {
            match lookup(a, k) {
                Some(v) => {
                    let j = choose|j: int| 0 <= j < a.len() && #[trigger] a[j] == (k, v);
                    assert(b[j] == (k, v));
                    lemma_lookup_at(b, j);
                },
                None => {
                    assert forall|j: int| 0 <= j < b.len() implies (#[trigger] b[j]).0 != k by {
                        assert(a[j].0 != k);
                    }
                },
            }
        }
    }
}

/// A new entry between the smaller keys and the greater ones.
pub proof fn lemma_new_entry_at<V>(a: Seq<(Seq<char>, V)>, i: int, key: Seq<char>, value: V)
    requires
        ascending(keys_of(a)),
        0 <= i <= a.len(),
        forall|j: int| 0 <= j < i ==> text_lt((#[trigger] a[j]).0, key),
        i < a.len() ==> text_lt(key, a[i].0),
    ensures
        ({
            let b = a.insert(i, (key, value));
            &&& ascending(keys_of(b))
            &&& forall|k: Seq<char>| #[trigger]
                lookup(b, k) == (if k == key {
                    Some(value)
                } else {
                    lookup(a, k)
                })
        }),
{
    let b = a.insert(i, (key, value));
    let ka = keys_of(a);
    let kb = keys_of(b);
    assert forall|j: int| i <= j < a.len() implies text_lt(key, (#[trigger] a[j]).0) by {
        if j > i {
            assert(text_lt(ka[i], ka[j]));
            lemma_text_lt_transitive(key, ka[i], ka[j]);
        }
    }
    assert forall|x: int, y: int| 0 <= x < y < kb.len() implies text_lt(
        #[trigger] kb[x],
        #[trigger] kb[y],
    ) by {
        if y < i {
            assert(kb[x] == ka[x] && kb[y] == ka[y]);
        } else if y == i {
            assert(kb[x] == a[x].0);
        } else if x < i {
            assert(kb[x] == ka[x] && kb[y] == ka[y - 1]);
        } else if x == i {
            assert(kb[y] == a[y - 1].0);
        } else {
            assert(kb[x] == ka[x - 1] && kb[y] == ka[y - 1]);
        }
    }
    assert forall|k: Seq<char>| #[trigger] lookup(b, k) == (if k == key {
        Some(value)
    } else {
        lookup(a, k)
    }) by {
        lemma_lookup(a, k);
        lemma_lookup(b, k);
        if k == key {
            assert(b[i] == (key, value));
            lemma_lookup_at(b, i);
        } else {
            match lookup(a, k) {
                Some(v) => {
                    let j = choose|j: int| 0 <= j < a.len() && #[trigger] a[j] == (k, v);
                    let m = if j < i {
                        j
                    } else {
                        j + 1
                    };
                    assert(b[m] == (k, v));
                    lemma_lookup_at(b, m);
                },
                None => {
                    assert forall|j: int| 0 <= j < b.len() implies (#[trigger] b[j]).0 != k by {
                        if j < i {
                            assert(a[j].0 != k);
                        } else if j > i {
                            assert(a[j - 1].0 != k);
                        }
                    }
                },
            }
        }
    }
}

/// Values with an order in which a list of them can be sorted.
pub trait Ranked: Sized {
    /// Whether `self` need not come after `other`.
    spec fn ranks(self, other: Self) -> bool;

    /// Whether `self` need not come after `other`.
    fn rank(&self, other: &Self) -> (r: bool)
        ensures
            r == self.ranks(*other),
    ;
}

/// `x` put into `s` behind everything at the end that need not come after it.
pub open spec fn insert_ranked<T: Ranked>(s: Seq<T>, x: T) -> Seq<T>
    decreases s.len(),
{
    if s.len() == 0 || s.last().ranks(x) {
        s.push(x)
    } else {
        insert_ranked(s.drop_last(), x).push(s.last())
    }
}

/// `s` in order; what ranks alike stays in the order it came in.
pub open spec fn sorted<T: Ranked>(s: Seq<T>) -> Seq<T>
    decreases s.len(),
{
    if s.len() == 0 {
        s
    } else {
        insert_ranked(sorted(s.drop_last()), s.last())
    }
}

/// Where `insert_ranked` puts a value.
proof fn lemma_insert_ranked<T: Ranked>(s: Seq<T>, x: T, i: int)
    requires
        0 <= i <= s.len(),
        i > 0 ==> s[i - 1].ranks(x),
        forall|j: int| i <= j < s.len() ==> !(#[trigger] s[j]).ranks(x),
    ensures
        insert_ranked(s, x) == s.insert(i, x),
    decreases s.len(),
{
    if i == s.len() {
        assert(s.insert(i, x) =~= s.push(x));
    } else {
        let r = s.drop_last();
        assert(!s[s.len() - 1].ranks(x));
        assert forall|j: int| i <= j < r.len() implies !(#[trigger] r[j]).ranks(x) by {
            assert(!s[j].ranks(x));
        }
        lemma_insert_ranked(r, x, i);
        assert(s.insert(i, x) =~= r.insert(i, x).push(s.last()));
    }
}

/// Sorts a list; what ranks alike stays in the order it came in.
pub fn stable_sort<T: Ranked>(v: Vec<T>) -> (r: Vec<T>)
    ensures
        r@ == sorted(v@),
{
    let ghost all = v@;
    let mut rest = v;
    let mut out: Vec<T> = Vec::new();
    assert(all.take(0) =~= Seq::<T>::empty());
    assert(out@ =~= sorted(all.take(0)));
    while rest.len() > 0
        invariant
            out@.len() + rest@.len() == all.len(),
            rest@ == all.skip(out@.len() as int),
            out@ == sorted(all.take(out@.len() as int)),
        decreases rest.len(),
    {
        let ghost k = out@.len() as int;
        let x = rest.remove(0);
        assert(x == all[k]);
        assert(rest@ =~= all.skip(k + 1));
        assert(all.take(k + 1).drop_last() =~= all.take(k));
        assert(all.take(k + 1).last() == x);
        let mut i: usize = out.len();
        while i > 0 && !out[i - 1].rank(&x)
            invariant
                i <= out.len(),
                forall|j: int| i <= j < out@.len() ==> !(#[trigger] out@[j]).ranks(x),
            decreases i,
        {
            i -= 1;
        }
        proof {
            lemma_insert_ranked(out@, x, i as int);
        }
        out.insert(i, x);
    }
    assert(all.take(all.len() as int) =~= all);
    out
}

/// Sorting keeps every value as often as it came.
pub proof fn law_sorting_permutes<T: Ranked>(s: Seq<T>)
    ensures
        sorted(s).to_multiset() == s.to_multiset(),
        sorted(s).len() == s.len(),
    decreases s.len(),
{
    broadcast use vstd::seq_lib::group_to_multiset_ensures;

    if s.len() > 0 {
        law_sorting_permutes(s.drop_last());
        lemma_insert_multiset(sorted(s.drop_last()), s.last());
        assert(s =~= s.drop_last().push(s.last()));
    }
}

proof fn lemma_insert_multiset<T: Ranked>(s: Seq<T>, x: T)
    ensures
        insert_ranked(s, x).to_multiset() == s.to_multiset().insert(x),
        insert_ranked(s, x).len() == s.len() + 1,
    decreases s.len(),
{
    broadcast use vstd::seq_lib::group_to_multiset_ensures;

    if s.len() > 0 && !s.last().ranks(x) {
        lemma_insert_multiset(s.drop_last(), x);
        assert(s =~= s.drop_last().push(s.last()));
        assert(insert_ranked(s, x).to_multiset() =~= s.to_multiset().insert(x));
    }
}

/// Where the order is total and transitive, a sorted list is in order.
pub proof fn law_sorting_orders<T: Ranked>(s: Seq<T>)
    requires
        forall|a: T, b: T| a.ranks(b) || b.ranks(a),
        forall|a: T, b: T, c: T| #[trigger] a.ranks(b) && #[trigger] b.ranks(c) ==> a.ranks(c),
    ensures
        in_order(sorted(s)),
    decreases s.len(),
{
    if s.len() > 0 {
        law_sorting_orders(s.drop_last());
        lemma_insert_in_order(sorted(s.drop_last()), s.last());
    }
}

/// Whether every value need not come after any later one.
pub open spec fn in_order<T: Ranked>(s: Seq<T>) -> bool {
    forall|i: int, j: int| 0 <= i < j < s.len() ==> (#[trigger] s[i]).ranks(#[trigger] s[j])
}

proof fn lemma_insert_in_order<T: Ranked>(s: Seq<T>, x: T)
    requires
        forall|a: T, b: T| a.ranks(b) || b.ranks(a),
        forall|a: T, b: T, c: T| #[trigger] a.ranks(b) && #[trigger] b.ranks(c) ==> a.ranks(c),
        in_order(s),
    ensures
        in_order(insert_ranked(s, x)),
        forall|i: int|
            0 <= i < insert_ranked(s, x).len() ==> #[trigger] insert_ranked(s, x)[i] == x
                || s.contains(insert_ranked(s, x)[i]),
    decreases s.len(),
{
    let t = insert_ranked(s, x);
    if s.len() == 0 || s.last().ranks(x) {
        assert forall|i: int, j: int| 0 <= i < j < t.len() implies (#[trigger] t[i]).ranks(
            #[trigger] t[j],
        ) by {
            if j == s.len() && i < s.len() - 1 {
                assert(s[i].ranks(s[s.len() - 1]));
                assert(s[s.len() - 1].ranks(x));
            }
        }
        assert forall|i: int| 0 <= i < t.len() implies #[trigger] t[i] == x || s.contains(t[i]) by {
            if i < s.len() {
                assert(s[i] == t[i]);
            }
        }
    } else {
        let r = s.drop_last();
        assert(in_order(r)) by {
            assert forall|i: int, j: int| 0 <= i < j < r.len() implies (#[trigger] r[i]).ranks(
                #[trigger] r[j],
            ) by {
                assert(s[i].ranks(s[j]));
            }
        }
        lemma_insert_in_order(r, x);
        let u = insert_ranked(r, x);
        assert(x.ranks(s.last()));
        assert forall|i: int| 0 <= i < u.len() implies (#[trigger] u[i]).ranks(s.last()) by {
            if u[i] != x {
                let k = choose|k: int| 0 <= k < r.len() && r[k] == u[i];
                assert(s[k].ranks(s[s.len() - 1]));
            }
        }
        assert forall|i: int, j: int| 0 <= i < j < t.len() implies (#[trigger] t[i]).ranks(
            #[trigger] t[j],
        ) by {
            if j < u.len() {
                assert(u[i].ranks(u[j]));
            } else {
                assert(u[i].ranks(s.last()));
            }
        }
        assert forall|i: int| 0 <= i < t.len() implies #[trigger] t[i] == x || s.contains(t[i]) by {
            if i < u.len() {
                if u[i] != x {
                    let k = choose|k: int| 0 <= k < r.len() && r[k] == u[i];
                    assert(s[k] == u[i]);
                }
            } else {
                assert(s[s.len() - 1] == t[i]);
            }
        }
    }
}

/// `x` put into `s` behind everything at the end that `le` lets stand before
/// it.
pub open spec fn insert_by<V>(s: Seq<V>, x: V, le: spec_fn(V, V) -> bool) -> Seq<V>
    decreases s.len(),
{
    if s.len() == 0 || le(s.last(), x) {
        s.push(x)
    } else {
        insert_by(s.drop_last(), x, le).push(s.last())
    }
}

/// `s` in the order of `le`; what ranks alike stays in the order it came in.
pub open spec fn sorted_by<V>(s: Seq<V>, le: spec_fn(V, V) -> bool) -> Seq<V>
    decreases s.len(),
{
    if s.len() == 0 {
        s
    } else {
        insert_by(sorted_by(s.drop_last(), le), s.last(), le)
    }
}

proof fn lemma_insert_views<T: Ranked, V>(
    s: Seq<T>,
    x: T,
    f: spec_fn(T) -> V,
    le: spec_fn(V, V) -> bool,
)
    requires
        forall|a: T, b: T| #[trigger] a.ranks(b) == le(f(a), f(b)),
    ensures
        insert_ranked(s, x).map_values(f) == insert_by(s.map_values(f), f(x), le),
    decreases s.len(),
{
    let v = s.map_values(f);
    if s.len() == 0 || s.last().ranks(x) {
        if s.len() > 0 {
            assert(v.last() == f(s.last()));
        }
        assert(s.push(x).map_values(f) =~= v.push(f(x)));
    } else {
        lemma_insert_views(s.drop_last(), x, f, le);
        assert(v.drop_last() =~= s.drop_last().map_values(f));
        assert(v.last() == f(s.last()));
        assert(insert_ranked(s.drop_last(), x).push(s.last()).map_values(f) =~= insert_ranked(
            s.drop_last(),
            x,
        ).map_values(f).push(f(s.last())));
    }
}

/// Sorting values sorts their models.
pub proof fn lemma_sorted_views<T: Ranked, V>(
    s: Seq<T>,
    f: spec_fn(T) -> V,
    le: spec_fn(V, V) -> bool,
)
    requires
        forall|a: T, b: T| #[trigger] a.ranks(b) == le(f(a), f(b)),
    ensures
        sorted(s).map_values(f) == sorted_by(s.map_values(f), le),
    decreases s.len(),
{
    let v = s.map_values(f);
    if s.len() == 0 {
        assert(s.map_values(f) =~= s.map_values(f));
    } else {
        lemma_sorted_views(s.drop_last(), f, le);
        assert(v.drop_last() =~= s.drop_last().map_values(f));
        assert(v.last() == f(s.last()));
        lemma_insert_views(sorted(s.drop_last()), s.last(), f, le);
    }
}

/// Whether `s` holds the texts of `v`, each once, in ascending order.
pub open spec fn is_set_of(s: Seq<Seq<char>>, v: Seq<Seq<char>>) -> bool {
    ascending(s) && forall|x: Seq<char>| #[trigger] s.contains(x) <==> v.contains(x)
}

/// The texts of `v`, each once, in ascending order.
pub open spec fn set_of(v: Seq<Seq<char>>) -> Seq<Seq<char>> {
    choose|s: Seq<Seq<char>>| is_set_of(s, v)
}

spec fn keyed(s: Seq<Seq<char>>) -> Seq<(Seq<char>, ())> {
    s.map_values(|x: Seq<char>| (x, ()))
}

proof fn lemma_keyed_lookup(s: Seq<Seq<char>>, x: Seq<char>)
    ensures
        lookup(keyed(s), x) is Some <==> s.contains(x),
        keys_of(keyed(s)) == s,
{
    lemma_lookup(keyed(s), x);
    assert(keys_of(keyed(s)) =~= s);
    if s.contains(x) {
        let k = choose|k: int| 0 <= k < s.len() && s[k] == x;
        assert(keyed(s)[k].0 == x);
    }
    if lookup(keyed(s), x) is Some {
        let k = choose|k: int| 0 <= k < keyed(s).len() && (#[trigger] keyed(s)[k]).0 == x;
        assert(s[k] == x);
    }
}

/// Ascending lists with the same texts are the same.
pub proof fn law_name_sets_are_determined(a: Seq<Seq<char>>, b: Seq<Seq<char>>, v: Seq<Seq<char>>)
    requires
        is_set_of(a, v),
        is_set_of(b, v),
    ensures
        a == b,
{
    assert forall|k: Seq<char>| #[trigger] lookup(keyed(a), k) == lookup(keyed(b), k) by {
        lemma_keyed_lookup(a, k);
        lemma_keyed_lookup(b, k);
        assert(a.contains(k) <==> v.contains(k));
        assert(b.contains(k) <==> v.contains(k));
    }
    lemma_keyed_lookup(a, Seq::empty());
    lemma_keyed_lookup(b, Seq::empty());
    law_entries_are_determined(keyed(a), keyed(b));
    assert(a =~= keys_of(keyed(a)));
    assert(b =~= keys_of(keyed(b)));
}

/// Texts as a set: each once, in ascending order.
pub fn name_set(v: &Vec<String>) -> (r: Vec<String>)
    ensures
        texts(r@) == set_of(texts(v@)),
        ascending(texts(r@)),
        forall|x: Seq<char>| #[trigger] texts(r@).contains(x) <==> texts(v@).contains(x),
{
    let ghost all = texts(v@);
    let mut map: Ordered<()> = Ordered::new();
    let mut i: usize = 0;
    while i < v.len()
        invariant
            i <= v.len(),
            all == texts(v@),
            map.wf(),
            forall|x: Seq<char>|
                (#[trigger] lookup(map@, x) is Some) == all.take(i as int).contains(x),
        decreases v.len() - i,
    {
        let ghost before = map@;
        map.insert(v[i].clone(), ());
        proof {
            let k = all[i as int];
            let more = all.take(i + 1);
            let less = all.take(i as int);
            assert(more =~= less.push(k));
            assert forall|x: Seq<char>| (#[trigger] lookup(map@, x) is Some) == more.contains(
                x,
            ) by {
                assert(lookup(before, x) is Some == less.contains(x));
                if x == k {
                    assert(more[i as int] == x);
                } else if less.contains(x) {
                    let j = choose|j: int| 0 <= j < less.len() && less[j] == x;
                    assert(more[j] == x);
                } else if more.contains(x) {
                    let j = choose|j: int| 0 <= j < more.len() && more[j] == x;
                    assert(less[j] == x);
                }
            }
        }
        i += 1;
    }
    assert(all.take(all.len() as int) =~= all);
    let mut out: Vec<String> = Vec::new();
    let ghost keys = keys_of(map@);
    let mut j: usize = 0;
    while j < map.len()
        invariant
            j <= map@.len(),
            keys == keys_of(map@),
            texts(out@) == keys.take(j as int),
        decreases map@.len() - j,
    {
        let ghost before = out@;
        out.push(map.key_at(j).clone());
        proof {
            assert(texts(out@) =~= texts(before).push(keys[j as int]));
            assert(keys.take(j + 1) =~= keys.take(j as int).push(keys[j as int]));
        }
        j += 1;
    }
    proof {
        assert(keys.take(keys.len() as int) =~= keys);
        assert forall|x: Seq<char>| #[trigger] texts(out@).contains(x) <==> all.contains(x) by {
            lemma_lookup(map@, x);
            assert(lookup(map@, x) is Some == all.contains(x));
            if keys.contains(x) {
                let k = choose|k: int| 0 <= k < keys.len() && keys[k] == x;
                assert(map@[k].0 == x);
            }
            if lookup(map@, x) is Some {
                let k = choose|k: int| 0 <= k < map@.len() && (#[trigger] map@[k]).0 == x;
                assert(keys[k] == x);
            }
        }
    }
    proof {
        assert(is_set_of(texts(out@), all));
        law_name_sets_are_determined(texts(out@), set_of(all), all);
    }
    out
}

proof fn lemma_insert_by_keeps<V>(s: Seq<V>, x: V, le: spec_fn(V, V) -> bool, y: V)
    ensures
        insert_by(s, x, le).contains(y) <==> s.contains(y) || y == x,
        insert_by(s, x, le).len() == s.len() + 1,
    decreases s.len(),
{
    let t = insert_by(s, x, le);
    if s.len() == 0 || le(s.last(), x) {
        if s.contains(y) {
            let k = choose|k: int| 0 <= k < s.len() && s[k] == y;
            assert(t[k] == y);
        }
        if y == x {
            assert(t[s.len() as int] == y);
        }
        if t.contains(y) {
            let k = choose|k: int| 0 <= k < t.len() && t[k] == y;
            if k < s.len() {
                assert(s[k] == y);
            }
        }
    } else {
        let r = s.drop_last();
        let u = insert_by(r, x, le);
        lemma_insert_by_keeps(r, x, le, y);
        if s.contains(y) {
            let k = choose|k: int| 0 <= k < s.len() && s[k] == y;
            if k < r.len() {
                assert(r[k] == y);
            } else {
                assert(t[u.len() as int] == y);
            }
        }
        if u.contains(y) {
            let k = choose|k: int| 0 <= k < u.len() && u[k] == y;
            assert(t[k] == y);
        }
        if t.contains(y) {
            let k = choose|k: int| 0 <= k < t.len() && t[k] == y;
            if k < u.len() {
                assert(u[k] == y);
                if r.contains(y) {
                    let j = choose|j: int| 0 <= j < r.len() && r[j] == y;
                    assert(s[j] == y);
                }
            } else {
                assert(s[s.len() - 1] == y);
            }
        }
    }
}

/// Sorting neither adds nor drops a value.
pub proof fn law_sorted_by_keeps<V>(s: Seq<V>, le: spec_fn(V, V) -> bool, y: V)
    ensures
        sorted_by(s, le).contains(y) <==> s.contains(y),
        sorted_by(s, le).len() == s.len(),
    decreases s.len(),
{
    if s.len() > 0 {
        let r = s.drop_last();
        law_sorted_by_keeps(r, le, y);
        lemma_insert_by_keeps(sorted_by(r, le), s.last(), le, y);
        if s.contains(y) {
            let k = choose|k: int| 0 <= k < s.len() && s[k] == y;
            if k < r.len() {
                assert(r[k] == y);
            }
        }
        if r.contains(y) {
            let k = choose|k: int| 0 <= k < r.len() && r[k] == y;
            assert(s[k] == y);
        }
        if y == s.last() {
            assert(s[s.len() - 1] == y);
        }
    }
}

/// Whether no value comes after one that must come later.
pub open spec fn ordered_by<V>(s: Seq<V>, le: spec_fn(V, V) -> bool) -> bool {
    forall|i: int, j: int| 0 <= i < j < s.len() ==> le(#[trigger] s[i], #[trigger] s[j])
}

proof fn lemma_insert_by_orders<V>(s: Seq<V>, x: V, le: spec_fn(V, V) -> bool)
    requires
        forall|a: V, b: V| #[trigger] le(a, b) || le(b, a),
        forall|a: V, b: V, c: V| #[trigger] le(a, b) && #[trigger] le(b, c) ==> le(a, c),
        ordered_by(s, le),
    ensures
        ordered_by(insert_by(s, x, le), le),
    decreases s.len(),
{
    let t = insert_by(s, x, le);
    if s.len() == 0 || le(s.last(), x) {
        assert forall|i: int, j: int| 0 <= i < j < t.len() implies le(
            #[trigger] t[i],
            #[trigger] t[j],
        ) by {
            if j < s.len() {
                assert(le(s[i], s[j]));
            } else if i < s.len() - 1 {
                assert(le(s[i], s[s.len() - 1]));
                assert(le(s[s.len() - 1], x));
            }
        }
    } else {
        let r = s.drop_last();
        let u = insert_by(r, x, le);
        assert(ordered_by(r, le)) by {
            assert forall|i: int, j: int| 0 <= i < j < r.len() implies le(
                #[trigger] r[i],
                #[trigger] r[j],
            ) by {
                assert(le(s[i], s[j]));
            }
        }
        lemma_insert_by_orders(r, x, le);
        assert(le(x, s.last()));
        assert forall|i: int, j: int| 0 <= i < j < t.len() implies le(
            #[trigger] t[i],
            #[trigger] t[j],
        ) by {
            if j < u.len() {
                assert(le(u[i], u[j]));
            } else {
                let y = u[i];
                lemma_insert_by_keeps(r, x, le, y);
                assert(u.contains(y));
                if y != x {
                    let k = choose|k: int| 0 <= k < r.len() && r[k] == y;
                    assert(le(s[k], s[s.len() - 1]));
                }
            }
        }
    }
}

/// By an order that is total and transitive, a sorted list is in order.
pub proof fn law_sorted_by_orders<V>(s: Seq<V>, le: spec_fn(V, V) -> bool)
    requires
        forall|a: V, b: V| #[trigger] le(a, b) || le(b, a),
        forall|a: V, b: V, c: V| #[trigger] le(a, b) && #[trigger] le(b, c) ==> le(a, c),
    ensures
        ordered_by(sorted_by(s, le), le),
    decreases s.len(),
{
    if s.len() > 0 {
        law_sorted_by_orders(s.drop_last(), le);
        lemma_insert_by_orders(sorted_by(s.drop_last(), le), s.last(), le);
    }
}

impl Ranked for String {
    open spec fn ranks(self, other: Self) -> bool {
        !text_lt(other@, self@)
    }

    fn rank(&self, other: &Self) -> (r: bool) {
        !str_lt(other.as_str(), self.as_str())
    }
}

/// The ascending order of texts.
pub open spec fn ascends() -> spec_fn(Seq<char>, Seq<char>) -> bool {
    |a: Seq<char>, b: Seq<char>| !text_lt(b, a)
}

/// Sorts texts in ascending order.
pub fn sort_texts(v: Vec<String>) -> (r: Vec<String>)
    ensures
        texts(r@) == sorted_by(texts(v@), ascends()),
{
    let r = stable_sort(v);
    proof {
        let f = |s: String| s@;
        lemma_sorted_views(v@, f, ascends());
        assert(v@.map_values(f) =~= texts(v@));
        assert(r@.map_values(f) =~= texts(r@));
    }
    r
}

proof fn lemma_insert_by_permutes<V>(s: Seq<V>, x: V, le: spec_fn(V, V) -> bool)
    ensures
        insert_by(s, x, le).to_multiset() == s.push(x).to_multiset(),
    decreases s.len(),
{
    broadcast use vstd::seq_lib::group_to_multiset_ensures;

    if s.len() > 0 && !le(s.last(), x) {
        let r = s.drop_last();
        lemma_insert_by_permutes(r, x, le);
        assert(s =~= r.push(s.last()));
    }
}

/// Sorting neither adds nor drops nor repeats anything.
pub proof fn law_sorted_by_permutes<V>(s: Seq<V>, le: spec_fn(V, V) -> bool)
    ensures
        sorted_by(s, le).to_multiset() == s.to_multiset(),
    decreases s.len(),
{
    broadcast use vstd::seq_lib::group_to_multiset_ensures;

    if s.len() > 0 {
        law_sorted_by_permutes(s.drop_last(), le);
        lemma_insert_by_permutes(sorted_by(s.drop_last(), le), s.last(), le);
        assert(s =~= s.drop_last().push(s.last()));
    }
}

/// A list that is put together piece by piece holds what a piece holds: `whole`
/// of a list adds to that of the list before its last item the piece `last`.
pub proof fn lemma_pieces<A, B>(
    s: Seq<A>,
    whole: spec_fn(Seq<A>) -> Seq<B>,
    last: spec_fn(Seq<A>) -> Seq<B>,
    x: B,
)
    requires
        whole(Seq::empty()).len() == 0,
        forall|t: Seq<A>| t.len() > 0 ==> #[trigger] whole(t) == whole(t.drop_last()) + last(t),
    ensures
        whole(s).contains(x) <==> exists|k: int|
            0 <= k < s.len() && (#[trigger] last(s.take(k + 1))).contains(x),
    decreases s.len(),
{
    if s.len() == 0 {
        assert(s =~= Seq::<A>::empty());
    } else {
        let t = s.drop_last();
        let n = t.len() as int;
        lemma_pieces(t, whole, last, x);
        assert(whole(s) == whole(t) + last(s));
        assert(s.take(n + 1) =~= s);
        let all = whole(s);
        let before = whole(t);
        let tail = last(s);
        if all.contains(x) {
            let m = choose|m: int| 0 <= m < all.len() && #[trigger] all[m] == x;
            if m < before.len() {
                assert(before[m] == x);
                assert(before.contains(x));
                let k = choose|k: int|
                    0 <= k < t.len() && (#[trigger] last(t.take(k + 1))).contains(x);
                assert(t.take(k + 1) =~= s.take(k + 1));
                assert(last(s.take(k + 1)).contains(x));
            } else {
                assert(tail[m - before.len()] == x);
                assert(tail.contains(x));
                assert(last(s.take(n + 1)).contains(x));
            }
        }
        if exists|k: int| 0 <= k < s.len() && (#[trigger] last(s.take(k + 1))).contains(x) {
            let k = choose|k: int|
                0 <= k < s.len() && (#[trigger] last(s.take(k + 1))).contains(x);
            if k < n {
                assert(t.take(k + 1) =~= s.take(k + 1));
                assert(last(t.take(k + 1)).contains(x));
                assert(before.contains(x));
                let m = choose|m: int| 0 <= m < before.len() && #[trigger] before[m] == x;
                assert(all[m] == x);
            } else {
                assert(tail.contains(x));
                let m = choose|m: int| 0 <= m < tail.len() && #[trigger] tail[m] == x;
                assert(all[before.len() + m] == x);
            }
        }
    }
}

} // verus!
