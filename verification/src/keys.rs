//! Keys of maps in ascending order.

use fxhash::FxHashMap;
use std::collections::hash_map::Keys;
use std::collections::HashMap;
use vstd::prelude::*;
use vstd::std_specs::hash::into_iter_keys;
use vstd::std_specs::iter::IteratorSpec;

use crate::fx::fx_keys;

verus! {

/// A key that stands for a number.
pub trait Key: Copy {
    /// The number.
    spec fn number(self) -> int;

    /// No two keys stand for the same number.
    proof fn lemma_same(self, other: Self)
        requires
            self.number() == other.number(),
        ensures
            self == other,
    ;

    /// Whether the number is greater than another key's.
    fn is_above(self, other: Self) -> (r: bool)
        ensures
            r == (self.number() > other.number()),
    ;
}

impl Key for u16 {
    open spec fn number(self) -> int {
        self as int
    }

    proof fn lemma_same(self, other: u16) {
    }

    fn is_above(self, other: u16) -> (r: bool) {
        self > other
    }
}

impl Key for u32 {
    open spec fn number(self) -> int {
        self as int
    }

    proof fn lemma_same(self, other: u32) {
    }

    fn is_above(self, other: u32) -> (r: bool) {
        self > other
    }
}

/// Each key is greater than the one before.
#[verifier::opaque]
pub open spec fn ascending<K: Key>(s: Seq<K>) -> bool {
    forall|i: int, j: int| 0 <= i < j < s.len() ==> s[i].number() < s[j].number()
}

/// The keys of a finite set in ascending order.
#[verifier::opaque]
pub open spec fn sorted_keys<K: Key>(dom: Set<K>) -> Seq<K> {
    choose|s: Seq<K>| #[trigger] ascending(s) && s.to_set() == dom
}

proof fn lemma_ascending_unique<K: Key>(a: Seq<K>, b: Seq<K>)
    requires
        ascending(a),
        ascending(b),
        a.to_set() == b.to_set(),
    ensures
        a == b,
    decreases a.len(),
{
    reveal(ascending);
    if a.len() == 0 {
        if b.len() > 0 {
            assert(b.to_set().contains(b[0]));
            assert(a.contains(b[0]));
        }
        assert(a =~= b);
    } else {
        assert(a.to_set().contains(a.last()));
        assert(b.contains(a.last()));
        assert(b.to_set().contains(b.last()));
        assert(a.contains(b.last()));
        a.last().lemma_same(b.last());
        let x = a.drop_last();
        let y = b.drop_last();
        assert forall|k: K| x.to_set().contains(k) <==> y.to_set().contains(k) by {
            if x.contains(k) {
                let i = choose|i: int| 0 <= i < x.len() && x[i] == k;
                assert(a[i] == k);
                assert(a.to_set().contains(k));
                assert(b.contains(k));
                let j = choose|j: int| 0 <= j < b.len() && b[j] == k;
                assert(y[j] == k);
            }
            if y.contains(k) {
                let i = choose|i: int| 0 <= i < y.len() && y[i] == k;
                assert(b[i] == k);
                assert(b.to_set().contains(k));
                assert(a.contains(k));
                let j = choose|j: int| 0 <= j < a.len() && a[j] == k;
                assert(x[j] == k);
            }
        }
        assert(x.to_set() =~= y.to_set());
        lemma_ascending_unique(x, y);
        assert(a =~= x.push(a.last()));
        assert(b =~= y.push(b.last()));
    }
}

/// An ascending sequence holds the keys of its set in ascending order.
pub proof fn lemma_sorted_keys<K: Key>(s: Seq<K>)
    requires
        ascending(s),
    ensures
        sorted_keys(s.to_set()) == s,
{
    reveal(sorted_keys);
    lemma_ascending_unique(s, sorted_keys(s.to_set()));
}

/// Ascending keys occur once each.
pub proof fn lemma_ascending_distinct<K: Key>(s: Seq<K>)
    requires
        ascending(s),
    ensures
        s.no_duplicates(),
{
    reveal(ascending);
}

/// Puts a key among ascending ones.
fn insert_sorted<K: Key>(v: &mut Vec<K>, k: K)
    requires
        ascending(old(v)@),
    ensures
        ascending(final(v)@),
        final(v)@.to_set() == old(v)@.to_set().insert(k),
{
    reveal(ascending);
    let mut i: usize = v.len();
    while i > 0 && v[i - 1].is_above(k)
        invariant
            i <= v.len(),
            v@ == old(v)@,
            forall|j: int| i <= j < v.len() ==> (#[trigger] v@[j]).number() > k.number(),
        decreases i,
    {
        i -= 1;
    }
    let ghost s = v@;
    if i > 0 && !k.is_above(v[i - 1]) {
        proof {
            s[i - 1].lemma_same(k);
            assert(s.contains(k));
            assert(s.to_set() =~= s.to_set().insert(k));
        }
        return;
    }
    v.insert(i, k);
    proof {
        let r = v@;
        assert forall|x: K| r.to_set().contains(x) <==> s.to_set().insert(k).contains(x) by {
            if r.contains(x) {
                let j = choose|j: int| 0 <= j < r.len() && r[j] == x;
                if j < i {
                    assert(s[j] == x);
                } else if j > i {
                    assert(s[j - 1] == x);
                }
            }
            if s.contains(x) {
                let j = choose|j: int| 0 <= j < s.len() && s[j] == x;
                if j < i {
                    assert(r[j] == x);
                } else {
                    assert(r[j + 1] == x);
                }
            }
            assert(r[i as int] == k);
        }
        assert(r.to_set() =~= s.to_set().insert(k));
    }
}

proof fn lemma_take_next<K>(s: Seq<K>, i: int)
    requires
        0 <= i < s.len(),
    ensures
        s.take(i + 1).to_set() == s.take(i).to_set().insert(s[i]),
{
    let a = s.take(i + 1);
    let b = s.take(i);
    assert forall|x: K| a.to_set().contains(x) <==> b.to_set().insert(s[i]).contains(x) by {
        if a.contains(x) {
            let j = choose|j: int| 0 <= j < a.len() && a[j] == x;
            if j < i {
                assert(b[j] == x);
            }
        }
        if b.contains(x) {
            let j = choose|j: int| 0 <= j < b.len() && b[j] == x;
            assert(a[j] == x);
        }
        assert(a[i] == s[i]);
    }
    assert(a.to_set() =~= b.to_set().insert(s[i]));
}

/// The keys of a map in ascending order.
fn sort_keys<K: Key, V>(keys: Keys<'_, K, V>) -> (r: Vec<K>)
    requires
        IteratorSpec::decrease(&keys) is Some,
        IteratorSpec::initial_value_relation(&keys, &keys),
    ensures
        r@ == sorted_keys(into_iter_keys(keys).to_set()),
        ascending(r@),
        r@.to_set() == into_iter_keys(keys).to_set(),
{
    reveal(ascending);
    let mut v: Vec<K> = Vec::new();
    let ghost all = into_iter_keys(keys);
    proof {
        assert(v@.to_set() =~= all.take(0).to_set());
    }
    for k in it: keys
        invariant
            all == it.seq().unref(),
            ascending(v@),
            v@.to_set() == all.take(it.index() as int).to_set(),
    {
        proof {
            let i = it.index() as int;
            assert(all[i] == *k);
            lemma_take_next(all, i);
        }
        insert_sorted(&mut v, *k);
    }
    proof {
        assert(all.take(all.len() as int) =~= all);
        lemma_sorted_keys(v@);
    }
    v
}

/// The keys of a map in ascending order.
pub(crate) fn map_keys16<V>(m: &HashMap<u16, V>) -> (r: Vec<u16>)
    ensures
        r@ == sorted_keys(m@.dom()),
        ascending(r@),
        r@.to_set() == m@.dom(),
{
    broadcast use vstd::std_specs::hash::group_hash_axioms;

    let keys = m.keys();
    assert(into_iter_keys(keys).to_set() == m@.dom());
    sort_keys(keys)
}

/// The keys of a map in ascending order.
pub(crate) fn fx_keys16<V>(m: &FxHashMap<u16, V>) -> (r: Vec<u16>)
    ensures
        r@ == sorted_keys(m@.dom()),
        ascending(r@),
        r@.to_set() == m@.dom(),
{
    broadcast use vstd::std_specs::hash::group_hash_axioms;

    let keys = fx_keys(m);
    assert(into_iter_keys(keys).to_set() == m@.dom());
    sort_keys(keys)
}

/// The keys of a map in ascending order.
pub(crate) fn fx_keys32<V>(m: &FxHashMap<u32, V>) -> (r: Vec<u32>)
    ensures
        r@ == sorted_keys(m@.dom()),
        ascending(r@),
        r@.to_set() == m@.dom(),
{
    broadcast use vstd::std_specs::hash::group_hash_axioms;

    let keys = fx_keys(m);
    assert(into_iter_keys(keys).to_set() == m@.dom());
    sort_keys(keys)
}

} // verus!
