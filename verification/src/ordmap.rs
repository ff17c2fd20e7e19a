//! Maps kept as a list of entries in key order.
//!
//! The model of a map is the sequence of its entries. `lookup`, `put` and
//! `erase` say what reading, writing and removing mean on that sequence;
//! on a sorted sequence they are the operations of a finite map, and the
//! sequence is determined by what `lookup` gives (`lemma_canonical`).
use vstd::prelude::*;
use crate::text;
use crate::text::{before, same};

verus! {

/// A strict total order.
pub trait Linear: Sized {
    spec fn precedes(self, other: Self) -> bool;

    proof fn irreflexive(a: Self)
        ensures
            !a.precedes(a),
    ;

    proof fn transitive(a: Self, b: Self, c: Self)
        requires
            a.precedes(b),
            b.precedes(c),
        ensures
            a.precedes(c),
    ;

    proof fn total(a: Self, b: Self)
        requires
            a != b,
        ensures
            a.precedes(b) || b.precedes(a),
    ;
}

impl Linear for Seq<char> {
    open spec fn precedes(self, other: Self) -> bool {
        text::lex_lt(self, other)
    }

    proof fn irreflexive(a: Self) {
        text::lemma_lex_irreflexive(a);
    }

    proof fn transitive(a: Self, b: Self, c: Self) {
        text::lemma_lex_transitive(a, b, c);
    }

    proof fn total(a: Self, b: Self) {
        text::lemma_lex_total(a, b);
    }
}

impl Linear for u32 {
    open spec fn precedes(self, other: Self) -> bool {
        self < other
    }

    proof fn irreflexive(a: Self) {
    }

    proof fn transitive(a: Self, b: Self, c: Self) {
    }

    proof fn total(a: Self, b: Self) {
    }
}

/// Two keys never precede each other.
pub proof fn lemma_asymmetric<K: Linear>(a: K, b: K)
    requires
        a.precedes(b),
    ensures
        !b.precedes(a),
        a != b,
{
    if b.precedes(a) {
        Linear::transitive(a, b, a);
    }
    Linear::irreflexive(a);
}

/// Entries in key order.
#[derive(Debug, PartialEq, Eq)]
pub struct StrMap<V> {
    pub entries: Vec<(String, V)>,
}

impl<V> View for StrMap<V> {
    type V = Seq<(Seq<char>, V)>;

    open spec fn view(&self) -> Seq<(Seq<char>, V)> {
        Seq::new(self.entries@.len(), |i: int| (self.entries@[i].0@, self.entries@[i].1))
    }
}

// ── What the operations mean ───────────────────────────────────────

/// The keys increase strictly from entry to entry.
pub open spec fn sorted<K: Linear, V>(s: Seq<(K, V)>) -> bool {
    forall|i: int, j: int|
        #![trigger s[i], s[j]]
        0 <= i < j < s.len() ==> s[i].0.precedes(s[j].0)
}

/// The value of the first entry whose key is `k`.
pub open spec fn lookup<K: Linear, V>(s: Seq<(K, V)>, k: K) -> Option<V>
    decreases s.len(),
{
    if s.len() == 0 {
        None
    } else if s[0].0 == k {
        Some(s[0].1)
    } else {
        lookup(s.drop_first(), k)
    }
}

/// The entries with `k` set to `v`: in place where the key is there, else
/// before the first larger key.
pub open spec fn put<K: Linear, V>(s: Seq<(K, V)>, k: K, v: V) -> Seq<(K, V)>
    decreases s.len(),
{
    if s.len() == 0 {
        seq![(k, v)]
    } else if s[0].0 == k {
        seq![(k, v)] + s.drop_first()
    } else if s[0].0.precedes(k) {
        seq![s[0]] + put(s.drop_first(), k, v)
    } else {
        seq![(k, v)] + s
    }
}

/// The entries without the first one whose key is `k`.
pub open spec fn erase<K: Linear, V>(s: Seq<(K, V)>, k: K) -> Seq<(K, V)>
    decreases s.len(),
{
    if s.len() == 0 {
        s
    } else if s[0].0 == k {
        s.drop_first()
    } else {
        seq![s[0]] + erase(s.drop_first(), k)
    }
}

/// `pairs`, put one after the other into the empty map: of two pairs with
/// one key the later one stays.
pub open spec fn collect<K: Linear, V>(pairs: Seq<(K, V)>) -> Seq<(K, V)>
    decreases pairs.len(),
{
    if pairs.len() == 0 {
        Seq::empty()
    } else {
        put(collect(pairs.drop_last()), pairs.last().0, pairs.last().1)
    }
}

/// The same keys, each value sent through `f`.
pub open spec fn map_vals<K: Linear, V, W>(s: Seq<(K, V)>, f: spec_fn(V) -> W) -> Seq<(K, W)> {
    Seq::new(s.len(), |i: int| (s[i].0, f(s[i].1)))
}

/// The keys, in the order of the entries.
pub open spec fn keys_of<K: Linear, V>(s: Seq<(K, V)>) -> Seq<K> {
    Seq::new(s.len(), |i: int| s[i].0)
}

// ── Facts about them ───────────────────────────────────────────────

/// Looking past entries whose key is another changes nothing.
pub proof fn lemma_lookup_skip<K: Linear, V>(s: Seq<(K, V)>, k: K, n: int)
    requires
        0 <= n <= s.len(),
        forall|j: int| 0 <= j < n ==> (#[trigger] s[j]).0 != k,
    ensures
        lookup(s, k) == lookup(s.skip(n), k),
    decreases n,
{
    if n == 0 {
        assert(s.skip(0) =~= s);
    } else {
        assert(s[0].0 != k);
        assert forall|j: int| 0 <= j < n - 1 implies (#[trigger] s.drop_first()[j]).0 != k by {
            assert(s.drop_first()[j] == s[j + 1]);
        }
        lemma_lookup_skip(s.drop_first(), k, n - 1);
        assert(s.drop_first().skip(n - 1) =~= s.skip(n));
    }
}

/// A key that no entry has is not found.
pub proof fn lemma_lookup_none<K: Linear, V>(s: Seq<(K, V)>, k: K)
    requires
        forall|j: int| 0 <= j < s.len() ==> (#[trigger] s[j]).0 != k,
    ensures
        lookup(s, k) is None,
{
    lemma_lookup_skip(s, k, s.len() as int);
}

/// What is left of sorted entries once those up to a key are gone comes
/// behind that key.
pub proof fn lemma_rest_sorted<K: Linear, V>(s: Seq<(K, V)>, rest: Seq<(K, V)>, k: K)
    requires
        sorted(s),
        rest == s && (s.len() > 0 ==> k.precedes(s[0].0)) || s.len() > 0 && rest == s.drop_first()
            && s[0].0 == k,
    ensures
        sorted(rest),
        rest.len() > 0 ==> k.precedes(rest[0].0),
{
    if rest != s {
        assert forall|i: int, j: int|
            #![trigger rest[i], rest[j]]
            0 <= i < j < rest.len() implies rest[i].0.precedes(rest[j].0) by {
            assert(rest[i] == s[i + 1] && rest[j] == s[j + 1]);
        }
        if rest.len() > 0 {
            assert(rest[0] == s[1]);
        }
    }
}

/// A key before the first of sorted entries is not found.
pub proof fn lemma_lookup_early<K: Linear, V>(s: Seq<(K, V)>, k: K)
    requires
        sorted(s),
        s.len() > 0 ==> k.precedes(s[0].0),
    ensures
        lookup(s, k) is None,
{
    assert forall|j: int| 0 <= j < s.len() implies (#[trigger] s[j]).0 != k by {
        Linear::irreflexive(k);
        if j > 0 {
            Linear::transitive(k, s[0].0, s[j].0);
        }
    }
    lemma_lookup_none(s, k);
}

/// The first entry with a key gives its value.
pub proof fn lemma_lookup_first<K: Linear, V>(s: Seq<(K, V)>, k: K, i: int)
    requires
        0 <= i < s.len(),
        s[i].0 == k,
        forall|j: int| 0 <= j < i ==> (#[trigger] s[j]).0 != k,
    ensures
        lookup(s, k) == Some(s[i].1),
{
    lemma_lookup_skip(s, k, i);
    assert(s.skip(i)[0] == s[i]);
}

/// What is found is the value of some entry with that key.
pub proof fn lemma_lookup_index<K: Linear, V>(s: Seq<(K, V)>, k: K) -> (i: int)
    requires
        lookup(s, k) is Some,
    ensures
        0 <= i < s.len(),
        s[i].0 == k,
        lookup(s, k) == Some(s[i].1),
    decreases s.len(),
{
    if s[0].0 == k {
        0
    } else {
        let j = lemma_lookup_index(s.drop_first(), k);
        assert(s.drop_first()[j] == s[j + 1]);
        j + 1
    }
}

/// In a sorted sequence every entry is found by its key.
pub proof fn lemma_lookup_sorted<K: Linear, V>(s: Seq<(K, V)>, i: int)
    requires
        sorted(s),
        0 <= i < s.len(),
    ensures
        lookup(s, s[i].0) == Some(s[i].1),
{
    assert forall|j: int| 0 <= j < i implies (#[trigger] s[j]).0 != s[i].0 by {
        Linear::irreflexive(s[i].0);
    }
    lemma_lookup_first(s, s[i].0, i);
}

/// `put` at the place where a scan for the first key not below `k` stops.
pub proof fn lemma_put_at<K: Linear, V>(s: Seq<(K, V)>, k: K, v: V, p: int)
    requires
        0 <= p <= s.len(),
        forall|j: int| 0 <= j < p ==> (#[trigger] s[j]).0.precedes(k),
        p < s.len() ==> !s[p].0.precedes(k),
    ensures
        p < s.len() && s[p].0 == k ==> put(s, k, v) == s.update(p, (k, v)),
        !(p < s.len() && s[p].0 == k) ==> put(s, k, v) == s.insert(p, (k, v)),
    decreases p,
{
    if s.len() == 0 {
        assert(s.insert(0, (k, v)) =~= seq![(k, v)]);
    } else if p == 0 {
        assert(seq![(k, v)] + s.drop_first() =~= s.update(0, (k, v)));
        assert(seq![(k, v)] + s =~= s.insert(0, (k, v)));
    } else {
        assert(s[0].0.precedes(k));
        lemma_asymmetric(s[0].0, k);
        let t = s.drop_first();
        assert forall|j: int| 0 <= j < p - 1 implies (#[trigger] t[j]).0.precedes(k) by {
            assert(t[j] == s[j + 1]);
        }
        lemma_put_at(t, k, v, p - 1);
        if p < s.len() && s[p].0 == k {
            assert(seq![s[0]] + t.update(p - 1, (k, v)) =~= s.update(p, (k, v)));
        } else {
            assert(seq![s[0]] + t.insert(p - 1, (k, v)) =~= s.insert(p, (k, v)));
        }
    }
}

/// Writing keeps the order.
pub proof fn lemma_put_sorted<K: Linear, V>(s: Seq<(K, V)>, k: K, v: V)
    requires
        sorted(s),
    ensures
        sorted(put(s, k, v)),
        put(s, k, v).len() > 0,
        forall|b: K|
            b.precedes(k) && (s.len() > 0 ==> b.precedes(s[0].0)) ==> b.precedes(#[trigger] put(s, k, v)[0].0),
    decreases s.len(),
{
    if s.len() == 0 {
    } else {
        let t = s.drop_first();
        let r = put(s, k, v);
        assert forall|i: int, j: int| #![trigger t[i], t[j]] 0 <= i < j < t.len() implies t[i].0.precedes(t[j].0) by {
            assert(t[i] == s[i + 1] && t[j] == s[j + 1]);
        }
        if s[0].0 == k {
            assert forall|i: int, j: int| #![trigger r[i], r[j]] 0 <= i < j < r.len() implies r[i].0.precedes(r[j].0) by {
                assert(r[i].0 == s[i].0 && r[j].0 == s[j].0);
            }
        } else if s[0].0.precedes(k) {
            lemma_put_sorted(t, k, v);
            let q = put(t, k, v);
            assert(t.len() > 0 ==> t[0] == s[1] && s[0].0.precedes(s[1].0));
            assert(s[0].0.precedes(q[0].0));
            assert forall|i: int, j: int| #![trigger r[i], r[j]] 0 <= i < j < r.len() implies r[i].0.precedes(r[j].0) by {
                assert(r[j] == q[j - 1]);
                if i == 0 {
                    if j > 1 {
                        assert(q[0].0.precedes(q[j - 1].0));
                        Linear::transitive(s[0].0, q[0].0, q[j - 1].0);
                    }
                } else {
                    assert(r[i] == q[i - 1]);
                }
            }
        } else {
            Linear::total(s[0].0, k);
            assert forall|i: int, j: int| #![trigger r[i], r[j]] 0 <= i < j < r.len() implies r[i].0.precedes(r[j].0) by {
                assert(r[j] == s[j - 1]);
                if i == 0 {
                    if j > 1 {
                        assert(s[0].0.precedes(s[j - 1].0));
                        Linear::transitive(k, s[0].0, s[j - 1].0);
                    }
                } else {
                    assert(r[i] == s[i - 1]);
                }
            }
        }
    }
}

/// Reading gives back what was last written under the key, and leaves the
/// other keys alone.
pub proof fn lemma_put_lookup<K: Linear, V>(s: Seq<(K, V)>, k: K, v: V, k2: K)
    requires
        sorted(s),
    ensures
        lookup(put(s, k, v), k2) == if k2 == k {
            Some(v)
        } else {
            lookup(s, k2)
        },
    decreases s.len(),
{
    let r = put(s, k, v);
    if s.len() == 0 {
        assert(r[0] == (k, v));
        assert(r.drop_first() =~= s);
    } else {
        let t = s.drop_first();
        assert forall|i: int, j: int| #![trigger t[i], t[j]] 0 <= i < j < t.len() implies t[i].0.precedes(t[j].0) by {
            assert(t[i] == s[i + 1] && t[j] == s[j + 1]);
        }
        if s[0].0 == k {
            assert(r.drop_first() =~= t);
        } else if s[0].0.precedes(k) {
            lemma_put_lookup(t, k, v, k2);
            assert(r.drop_first() =~= put(t, k, v));
        } else {
            assert(r.drop_first() =~= s);
        }
    }
}

/// Every entry that removing leaves was there before.
pub proof fn lemma_erase_subset<K: Linear, V>(s: Seq<(K, V)>, k: K, j: int) -> (i: int)
    requires
        0 <= j < erase(s, k).len(),
    ensures
        j <= i < s.len(),
        erase(s, k)[j] == s[i],
    decreases s.len(),
{
    if s[0].0 == k {
        j + 1
    } else if j == 0 {
        0
    } else {
        let i = lemma_erase_subset(s.drop_first(), k, j - 1);
        i + 1
    }
}

/// Removing keeps the order.
pub proof fn lemma_erase_sorted<K: Linear, V>(s: Seq<(K, V)>, k: K)
    requires
        sorted(s),
    ensures
        sorted(erase(s, k)),
    decreases s.len(),
{
    if s.len() > 0 {
        let t = s.drop_first();
        let r = erase(s, k);
        lemma_tail_sorted(s);
        if s[0].0 != k {
            lemma_erase_sorted(t, k);
            let q = erase(t, k);
            assert forall|i: int, j: int| #![trigger r[i], r[j]] 0 <= i < j < r.len() implies r[i].0.precedes(r[j].0) by {
                assert(r[j] == q[j - 1]);
                if i > 0 {
                    assert(r[i] == q[i - 1]);
                } else {
                    let n = lemma_erase_subset(t, k, j - 1);
                    assert(t[n] == s[n + 1]);
                }
            }
        }
    }
}

/// After removing a key it is not found; the other keys are left alone.
pub proof fn lemma_erase_lookup<K: Linear, V>(s: Seq<(K, V)>, k: K, k2: K)
    requires
        sorted(s),
    ensures
        lookup(erase(s, k), k2) == if k2 == k {
            None
        } else {
            lookup(s, k2)
        },
    decreases s.len(),
{
    if s.len() > 0 {
        let t = s.drop_first();
        let r = erase(s, k);
        assert forall|i: int, j: int| #![trigger t[i], t[j]] 0 <= i < j < t.len() implies t[i].0.precedes(t[j].0) by {
            assert(t[i] == s[i + 1] && t[j] == s[j + 1]);
        }
        if s[0].0 == k {
            if k2 == k {
                assert forall|j: int| 0 <= j < t.len() implies (#[trigger] t[j]).0 != k by {
                    assert(t[j] == s[j + 1]);
                    assert(s[0].0.precedes(s[j + 1].0));
                    Linear::irreflexive(k);
                }
                lemma_lookup_none(t, k);
            }
        } else {
            lemma_erase_lookup(t, k, k2);
            assert(r.drop_first() =~= erase(t, k));
        }
    }
}

/// A sorted sequence is determined by what its keys give.
pub proof fn lemma_canonical<K: Linear, V>(a: Seq<(K, V)>, b: Seq<(K, V)>)
    requires
        sorted(a),
        sorted(b),
        forall|k: K| #[trigger] lookup(a, k) == lookup(b, k),
    ensures
        a == b,
    decreases a.len(),
{
    if a.len() == 0 {
        if b.len() > 0 {
            lemma_lookup_sorted(b, 0);
            assert(lookup(a, b[0].0) is None);
        }
        assert(a =~= b);
    } else {
        lemma_lookup_sorted(a, 0);
        assert(lookup(b, a[0].0) is Some);
        let i = lemma_lookup_index(b, a[0].0);
        lemma_lookup_sorted(b, 0);
        assert(lookup(a, b[0].0) is Some);
        let j = lemma_lookup_index(a, b[0].0);
        if i > 0 {
            assert(b[0].0.precedes(b[i].0));
            if j > 0 {
                assert(a[0].0.precedes(a[j].0));
                lemma_asymmetric(a[0].0, b[0].0);
            }
            Linear::irreflexive(a[0].0);
        }
        assert(i == 0);
        assert(a[0] == b[0]);
        let s = a.drop_first();
        let t = b.drop_first();
        lemma_tail_sorted(a);
        lemma_tail_sorted(b);
        assert forall|k: K| #[trigger] lookup(s, k) == lookup(t, k) by {
            if k == a[0].0 {
                lemma_tail_misses_head(a);
                lemma_tail_misses_head(b);
            } else {
                assert(lookup(a, k) == lookup(b, k));
            }
        }
        lemma_canonical(s, t);
        assert(a =~= seq![a[0]] + s);
        assert(b =~= seq![b[0]] + t);
    }
}

/// The tail of a sorted sequence is sorted.
pub proof fn lemma_tail_sorted<K: Linear, V>(s: Seq<(K, V)>)
    requires
        sorted(s),
        s.len() > 0,
    ensures
        sorted(s.drop_first()),
{
    let t = s.drop_first();
    assert forall|i: int, j: int| #![trigger t[i], t[j]] 0 <= i < j < t.len() implies t[i].0.precedes(t[j].0) by {
        assert(t[i] == s[i + 1] && t[j] == s[j + 1]);
    }
}

/// The first key of a sorted sequence does not come again.
pub proof fn lemma_tail_misses_head<K: Linear, V>(s: Seq<(K, V)>)
    requires
        sorted(s),
        s.len() > 0,
    ensures
        lookup(s.drop_first(), s[0].0) is None,
{
    let t = s.drop_first();
    assert forall|j: int| 0 <= j < t.len() implies (#[trigger] t[j]).0 != s[0].0 by {
        assert(t[j] == s[j + 1]);
        assert(s[0].0.precedes(s[j + 1].0));
        Linear::irreflexive(s[0].0);
    }
    lemma_lookup_none(t, s[0].0);
}

/// What was collected is sorted.
pub proof fn lemma_collect_sorted<K: Linear, V>(pairs: Seq<(K, V)>)
    ensures
        sorted(collect(pairs)),
    decreases pairs.len(),
{
    if pairs.len() > 0 {
        lemma_collect_sorted(pairs.drop_last());
        lemma_put_sorted(collect(pairs.drop_last()), pairs.last().0, pairs.last().1);
    }
}

/// Sending the values through a function commutes with reading.
pub proof fn lemma_map_vals_lookup<K: Linear, V, W>(s: Seq<(K, V)>, f: spec_fn(V) -> W, k: K)
    ensures
        lookup(map_vals(s, f), k) == match lookup(s, k) {
            Some(v) => Some(f(v)),
            None => None,
        },
    decreases s.len(),
{
    if s.len() > 0 {
        lemma_map_vals_lookup(s.drop_first(), f, k);
        assert(map_vals(s, f).drop_first() =~= map_vals(s.drop_first(), f));
    }
}

/// Sending the values through a function commutes with writing.
pub proof fn lemma_map_vals_put<K: Linear, V, W>(s: Seq<(K, V)>, f: spec_fn(V) -> W, k: K, v: V)
    ensures
        map_vals(put(s, k, v), f) == put(map_vals(s, f), k, f(v)),
    decreases s.len(),
{
    let m = map_vals(s, f);
    if s.len() == 0 {
        assert(map_vals(put(s, k, v), f) =~= seq![(k, f(v))]);
        assert(m.len() == 0);
    } else {
        assert(m.drop_first() =~= map_vals(s.drop_first(), f));
        lemma_map_vals_put(s.drop_first(), f, k, v);
        if s[0].0 == k {
            assert(map_vals(put(s, k, v), f) =~= seq![(k, f(v))] + m.drop_first());
        } else if s[0].0.precedes(k) {
            assert(map_vals(put(s, k, v), f) =~= seq![m[0]] + map_vals(put(s.drop_first(), k, v), f));
        } else {
            assert(map_vals(put(s, k, v), f) =~= seq![(k, f(v))] + m);
        }
    }
}

/// Sending the values through a function commutes with removing.
pub proof fn lemma_map_vals_erase<K: Linear, V, W>(s: Seq<(K, V)>, f: spec_fn(V) -> W, k: K)
    ensures
        map_vals(erase(s, k), f) == erase(map_vals(s, f), k),
    decreases s.len(),
{
    let m = map_vals(s, f);
    if s.len() > 0 {
        lemma_map_vals_erase(s.drop_first(), f, k);
        assert(m.drop_first() =~= map_vals(s.drop_first(), f));
        if s[0].0 != k {
            assert(map_vals(erase(s, k), f) =~= seq![m[0]] + map_vals(erase(s.drop_first(), k), f));
        }
    } else {
        assert(m =~= Seq::empty());
    }
}

/// A key above all others is written at the end.
pub proof fn lemma_put_last<K: Linear, V>(s: Seq<(K, V)>, k: K, v: V)
    requires
        sorted(s.push((k, v))),
    ensures
        put(s, k, v) == s.push((k, v)),
{
    let t = s.push((k, v));
    assert forall|j: int| 0 <= j < s.len() implies (#[trigger] s[j]).0.precedes(k) by {
        assert(t[j] == s[j] && t[s.len() as int] == (k, v));
    }
    lemma_put_at(s, k, v, s.len() as int);
    assert(s.insert(s.len() as int, (k, v)) =~= t);
}

/// Collecting sorted pairs gives them back.
pub proof fn lemma_collect_of_sorted<K: Linear, V>(s: Seq<(K, V)>)
    requires
        sorted(s),
    ensures
        collect(s) == s,
    decreases s.len(),
{
    if s.len() > 0 {
        let t = s.drop_last();
        assert(t.push(s.last()) =~= s);
        assert forall|i: int, j: int| #![trigger t[i], t[j]] 0 <= i < j < t.len() implies t[i].0.precedes(t[j].0) by {
            assert(t[i] == s[i] && t[j] == s[j]);
        }
        lemma_collect_of_sorted(t);
        lemma_put_last(t, s.last().0, s.last().1);
    } else {
        assert(s =~= Seq::empty());
    }
}

/// `erase` at the first entry with the key.
pub proof fn lemma_erase_at<K: Linear, V>(s: Seq<(K, V)>, k: K, i: int)
    requires
        0 <= i < s.len(),
        s[i].0 == k,
        forall|j: int| 0 <= j < i ==> (#[trigger] s[j]).0 != k,
    ensures
        erase(s, k) == s.remove(i),
    decreases i,
{
    if i == 0 {
        assert(s.drop_first() =~= s.remove(0));
    } else {
        assert(s[0].0 != k);
        let t = s.drop_first();
        assert forall|j: int| 0 <= j < i - 1 implies (#[trigger] t[j]).0 != k by {
            assert(t[j] == s[j + 1]);
        }
        lemma_erase_at(t, k, i - 1);
        assert(seq![s[0]] + t.remove(i - 1) =~= s.remove(i));
    }
}

/// `erase` of a key that is not there.
pub proof fn lemma_erase_absent<K: Linear, V>(s: Seq<(K, V)>, k: K)
    requires
        forall|j: int| 0 <= j < s.len() ==> (#[trigger] s[j]).0 != k,
    ensures
        erase(s, k) == s,
    decreases s.len(),
{
    if s.len() > 0 {
        assert(s[0].0 != k);
        let t = s.drop_first();
        assert forall|j: int| 0 <= j < t.len() implies (#[trigger] t[j]).0 != k by {
            assert(t[j] == s[j + 1]);
        }
        lemma_erase_absent(t, k);
        assert(seq![s[0]] + t =~= s);
    }
}

// ── The executable map ─────────────────────────────────────────────

impl<V> StrMap<V> {
    /// The empty map.
    pub fn new() -> (r: Self)
        ensures
            r@ == Seq::<(Seq<char>, V)>::empty(),
    {
        let r = StrMap { entries: Vec::new() };
        proof {
            assert(r@ =~= Seq::<(Seq<char>, V)>::empty());
        }
        r
    }

    /// Number of entries.
    pub fn len(&self) -> (r: usize)
        ensures
            r == self@.len(),
    {
        self.entries.len()
    }

    pub fn is_empty(&self) -> (r: bool)
        ensures
            r == (self@.len() == 0),
    {
        self.entries.len() == 0
    }

    /// Where a key stands, if it is there.
    pub fn position(&self, key: &str) -> (r: Option<usize>)
        ensures
            match r {
                Some(i) => i < self@.len() && self@[i as int].0 == key@ && lookup(self@, key@)
                    == Some(self@[i as int].1) && (forall|j: int|
                    0 <= j < i ==> (#[trigger] self@[j]).0 != key@),
                None => lookup(self@, key@) is None && (forall|j: int|
                    0 <= j < self@.len() ==> (#[trigger] self@[j]).0 != key@),
            },
    {
        let mut i: usize = 0;
        while i < self.entries.len()
            invariant
                i <= self.entries@.len(),
                forall|j: int| 0 <= j < i ==> (#[trigger] self@[j]).0 != key@,
            decreases self.entries.len() - i,
        {
            if same(self.entries[i].0.as_str(), key) {
                proof {
                    assert(self@[i as int].0 == key@);
                    lemma_lookup_first(self@, key@, i as int);
                }
                return Some(i);
            }
            i += 1;
        }
        proof {
            lemma_lookup_none(self@, key@);
        }
        None
    }

    /// The value under `key`.
    pub fn get(&self, key: &str) -> (r: Option<&V>)
        ensures
            match r {
                Some(v) => lookup(self@, key@) == Some(*v),
                None => lookup(self@, key@) is None,
            },
    {
        match self.position(key) {
            Some(i) => Some(&self.entries[i].1),
            None => None,
        }
    }

    pub fn contains_key(&self, key: &str) -> (r: bool)
        ensures
            r == (lookup(self@, key@) is Some),
    {
        match self.position(key) {
            Some(_) => true,
            None => false,
        }
    }

    /// Write `value` under `key`.
    pub fn insert(&mut self, key: String, value: V)
        ensures
            final(self)@ == put(old(self)@, key@, value),
    {
        let mut p: usize = 0;
        while p < self.entries.len() && before(self.entries[p].0.as_str(), key.as_str())
            invariant
                p <= self.entries@.len(),
                self@ == old(self)@,
                forall|j: int| 0 <= j < p ==> (#[trigger] self@[j]).0.precedes(key@),
            decreases self.entries.len() - p,
        {
            p += 1;
        }
        proof {
            assert(p < self@.len() ==> self@[p as int].0 == self.entries@[p as int].0@);
            lemma_put_at(old(self)@, key@, value, p as int);
        }
        if p < self.entries.len() && same(self.entries[p].0.as_str(), key.as_str()) {
            self.entries.remove(p);
        }
        let ghost k = key@;
        self.entries.insert(p, (key, value));
        proof {
            if p < old(self)@.len() && old(self)@[p as int].0 == k {
                assert(self@ =~= old(self)@.update(p as int, (k, value)));
            } else {
                assert(self@ =~= old(self)@.insert(p as int, (k, value)));
            }
        }
    }

    /// Remove the entry under `key` and return its value.
    pub fn remove(&mut self, key: &str) -> (r: Option<V>)
        ensures
            r == lookup(old(self)@, key@),
            final(self)@ == erase(old(self)@, key@),
    {
        match self.position(key) {
            Some(i) => {
                let e = self.entries.remove(i);
                proof {
                    lemma_erase_at(old(self)@, key@, i as int);
                    assert(self@ =~= old(self)@.remove(i as int));
                }
                Some(e.1)
            },
            None => {
                proof {
                    lemma_erase_absent(self@, key@);
                }
                None
            },
        }
    }
}

impl<V: Clone> Clone for StrMap<V> {
    fn clone(&self) -> (r: Self)
        ensures
            r@.len() == self@.len(),
            forall|i: int|
                0 <= i < self@.len() ==> (#[trigger] r@[i]).0 == self@[i].0 && cloned::<V>(
                    self@[i].1,
                    r@[i].1,
                ),
    {
        let mut out: Vec<(String, V)> = Vec::new();
        let mut i: usize = 0;
        while i < self.entries.len()
            invariant
                i <= self.entries@.len(),
                out@.len() == i,
                forall|j: int|
                    0 <= j < i ==> (#[trigger] out@[j]).0@ == self.entries@[j].0@ && cloned::<V>(
                        self.entries@[j].1,
                        out@[j].1,
                    ),
            decreases self.entries.len() - i,
        {
            let e = &self.entries[i];
            out.push((e.0.clone(), e.1.clone()));
            i += 1;
        }
        StrMap { entries: out }
    }
}

/// Of the pairs with one key the last one stays, and no other key is there.
pub proof fn law_last_pair_stays<K: Linear, V>(pairs: Seq<(K, V)>, k: K)
    ensures
        sorted(collect(pairs)),
        forall|i: int|
            0 <= i < pairs.len() && (#[trigger] pairs[i]).0 == k && (forall|j: int|
                i < j < pairs.len() ==> (#[trigger] pairs[j]).0 != k) ==> lookup(collect(pairs), k)
                == Some(pairs[i].1),
        (forall|i: int| 0 <= i < pairs.len() ==> (#[trigger] pairs[i]).0 != k) ==> lookup(
            collect(pairs),
            k,
        ) is None,
    decreases pairs.len(),
{
    lemma_collect_sorted(pairs);
    if pairs.len() > 0 {
        let front = pairs.drop_last();
        let p = pairs.last();
        law_last_pair_stays(front, k);
        lemma_collect_sorted(front);
        lemma_put_lookup(collect(front), p.0, p.1, k);
        assert forall|i: int|
            0 <= i < pairs.len() && (#[trigger] pairs[i]).0 == k && (forall|j: int|
                i < j < pairs.len() ==> (#[trigger] pairs[j]).0 != k) implies lookup(
            collect(pairs),
            k,
        ) == Some(pairs[i].1) by {
            if i < pairs.len() - 1 {
                assert(pairs[pairs.len() - 1].0 != k);
                assert(front[i] == pairs[i]);
                assert forall|j: int| i < j < front.len() implies (#[trigger] front[j]).0 != k by {
                    assert(pairs[j].0 != k);
                }
            }
        }
        if forall|i: int| 0 <= i < pairs.len() ==> (#[trigger] pairs[i]).0 != k {
            assert(pairs[pairs.len() - 1].0 != k);
            assert forall|i: int| 0 <= i < front.len() implies (#[trigger] front[i]).0 != k by {
                assert(pairs[i].0 != k);
            }
        }
    }
}

} // verus!
