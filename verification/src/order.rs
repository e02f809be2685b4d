//! Ordered maps and sets.
//!
//! Entries are kept in ascending order of their keys, so walking a map
//! depends on what it holds alone. Text is ordered by the code points of
//! its characters.

use vstd::prelude::*;

use crate::text::{chars_of, texts};

verus! {

/// Where one key stands relative to another.
#[derive(Clone, Copy, PartialEq, Eq, Structural)]
pub enum Place {
    Before,
    Same,
    After,
}

/// Keys with a strict total order on their views.
pub trait Ordered: View + Sized {
    spec fn precedes(a: Self::V, b: Self::V) -> bool;

    proof fn precedes_irreflexive(a: Self::V)
        ensures
            !Self::precedes(a, a),
    ;

    proof fn precedes_transitive(a: Self::V, b: Self::V, c: Self::V)
        requires
            Self::precedes(a, b),
            Self::precedes(b, c),
        ensures
            Self::precedes(a, c),
    ;

    proof fn precedes_total(a: Self::V, b: Self::V)
        ensures
            Self::precedes(a, b) || a == b || Self::precedes(b, a),
    ;

    fn place(&self, other: &Self) -> (r: Place)
        ensures
            match r {
                Place::Before => Self::precedes(self@, other@),
                Place::Same => self@ == other@,
                Place::After => Self::precedes(other@, self@),
            },
    ;
}

/// Dictionary order by code point.
pub open spec fn text_precedes(a: Seq<char>, b: Seq<char>) -> bool
    decreases a.len(),
{
    if b.len() == 0 {
        false
    } else if a.len() == 0 {
        true
    } else if a[0] == b[0] {
        text_precedes(a.drop_first(), b.drop_first())
    } else {
        a[0] < b[0]
    }
}

proof fn lemma_text_irreflexive(a: Seq<char>)
    ensures
        !text_precedes(a, a),
    decreases a.len(),
{
    if a.len() > 0 {
        lemma_text_irreflexive(a.drop_first());
    }
}

proof fn lemma_text_transitive(a: Seq<char>, b: Seq<char>, c: Seq<char>)
    requires
        text_precedes(a, b),
        text_precedes(b, c),
    ensures
        text_precedes(a, c),
    decreases a.len(),
{
    if a.len() > 0 && a[0] == b[0] && b[0] == c[0] {
        lemma_text_transitive(a.drop_first(), b.drop_first(), c.drop_first());
    }
}

proof fn lemma_text_total(a: Seq<char>, b: Seq<char>)
    ensures
        text_precedes(a, b) || a == b || text_precedes(b, a),
    decreases a.len(),
{
    if a.len() == 0 || b.len() == 0 {
        if a.len() == b.len() {
            assert(a =~= b);
        }
    } else if a[0] == b[0] {
        lemma_text_total(a.drop_first(), b.drop_first());
        if a.drop_first() == b.drop_first() {
            assert(a =~= seq![a[0]] + a.drop_first());
            assert(b =~= seq![b[0]] + b.drop_first());
        }
    }
}

proof fn lemma_text_common_prefix(a: Seq<char>, b: Seq<char>, n: int)
    requires
        0 <= n <= a.len(),
        n <= b.len(),
        forall|j: int| 0 <= j < n ==> a[j] == b[j],
    ensures
        text_precedes(a, b) == text_precedes(a.skip(n), b.skip(n)),
    decreases n,
{
    if n == 0 {
        assert(a.skip(0) == a && b.skip(0) == b);
    } else {
        lemma_text_common_prefix(a.drop_first(), b.drop_first(), n - 1);
        assert(a.drop_first().skip(n - 1) == a.skip(n));
        assert(b.drop_first().skip(n - 1) == b.skip(n));
    }
}

/// Where the text `a` stands relative to `b`.
pub fn place_text(a: &str, b: &str) -> (r: Place)
    ensures
        match r {
            Place::Before => text_precedes(a@, b@),
            Place::Same => a@ == b@,
            Place::After => text_precedes(b@, a@),
        },
{
    let xs = chars_of(a);
    let ys = chars_of(b);
    let mut i: usize = 0;
    while i < xs.len() && i < ys.len() && xs[i] == ys[i]
        invariant
            i <= xs.len(),
            i <= ys.len(),
            forall|j: int| 0 <= j < i ==> xs@[j] == ys@[j],
        decreases xs.len() - i,
    {
        i = i + 1;
    }
    proof {
        lemma_text_common_prefix(a@, b@, i as int);
        lemma_text_common_prefix(b@, a@, i as int);
    }
    if i == xs.len() {
        if i == ys.len() {
            assert(a@ == b@);
            Place::Same
        } else {
            Place::Before
        }
    } else if i == ys.len() {
        Place::After
    } else if xs[i] < ys[i] {
        Place::Before
    } else {
        Place::After
    }
}

impl Ordered for String {
    open spec fn precedes(a: Seq<char>, b: Seq<char>) -> bool {
        text_precedes(a, b)
    }

    proof fn precedes_irreflexive(a: Seq<char>) {
        lemma_text_irreflexive(a);
    }

    proof fn precedes_transitive(a: Seq<char>, b: Seq<char>, c: Seq<char>) {
        lemma_text_transitive(a, b, c);
    }

    proof fn precedes_total(a: Seq<char>, b: Seq<char>) {
        lemma_text_total(a, b);
    }

    fn place(&self, other: &Self) -> Place {
        place_text(self, other)
    }
}

/// Pairs of texts, the first one deciding where they differ.
pub open spec fn pair_precedes(a: (Seq<char>, Seq<char>), b: (Seq<char>, Seq<char>)) -> bool {
    if a.0 == b.0 {
        text_precedes(a.1, b.1)
    } else {
        text_precedes(a.0, b.0)
    }
}

impl Ordered for (String, String) {
    open spec fn precedes(a: (Seq<char>, Seq<char>), b: (Seq<char>, Seq<char>)) -> bool {
        pair_precedes(a, b)
    }

    proof fn precedes_irreflexive(a: (Seq<char>, Seq<char>)) {
        lemma_text_irreflexive(a.1);
    }

    proof fn precedes_transitive(
        a: (Seq<char>, Seq<char>),
        b: (Seq<char>, Seq<char>),
        c: (Seq<char>, Seq<char>),
    ) {
        if a.0 == b.0 {
            if b.0 == c.0 {
                lemma_text_transitive(a.1, b.1, c.1);
            }
        } else if b.0 != c.0 {
            lemma_text_transitive(a.0, b.0, c.0);
            if a.0 == c.0 {
                lemma_text_irreflexive(a.0);
            }
        }
    }

    proof fn precedes_total(a: (Seq<char>, Seq<char>), b: (Seq<char>, Seq<char>)) {
        lemma_text_total(a.0, b.0);
        lemma_text_total(a.1, b.1);
    }

    fn place(&self, other: &Self) -> Place {
        match place_text(&self.0, &other.0) {
            Place::Before => {
                proof {
                    lemma_text_irreflexive(self.0@);
                }
                Place::Before
            },
            Place::After => {
                proof {
                    lemma_text_irreflexive(self.0@);
                }
                Place::After
            },
            Place::Same => place_text(&self.1, &other.1),
        }
    }
}

/// Strictly ascending.
pub open spec fn ascends<K: Ordered>(keys: Seq<K::V>) -> bool {
    forall|i: int, j: int| 0 <= i < j < keys.len() ==> K::precedes(keys[i], keys[j])
}

/// The elements of a finite set in ascending order.
pub open spec fn ascending<K: Ordered>(keys: Set<K::V>) -> Seq<K::V> {
    choose|s: Seq<K::V>| ascends::<K>(s) && s.to_set() == keys
}

/// Only one ascending sequence has given elements.
pub proof fn lemma_ascending_unique<K: Ordered>(s: Seq<K::V>, t: Seq<K::V>)
    requires
        ascends::<K>(s),
        ascends::<K>(t),
        s.to_set() == t.to_set(),
    ensures
        s == t,
    decreases s.len(),
{
    if s.len() == 0 {
        if t.len() > 0 {
            assert(t.to_set().contains(t[0]));
            assert(s.to_set().contains(t[0]));
        }
        assert(s == t);
    } else {
        assert(s.to_set().contains(s[0]));
        assert(t.to_set().contains(s[0]));
        assert(t.len() > 0);
        assert(t.to_set().contains(t[0]));
        assert(s.to_set().contains(t[0]));
        let i = choose|i: int| 0 <= i < s.len() && s[i] == t[0];
        let j = choose|j: int| 0 <= j < t.len() && t[j] == s[0];
        if i > 0 {
            if j > 0 {
                assert(K::precedes(s[0], s[i]));
                assert(K::precedes(t[0], t[j]));
                K::precedes_transitive(s[0], t[0], s[0]);
                K::precedes_irreflexive(s[0]);
            }
        }
        assert(s[0] == t[0]);
        let s1 = s.drop_first();
        let t1 = t.drop_first();
        assert forall|k: K::V| s1.to_set().contains(k) == t1.to_set().contains(k) by {
            if s1.to_set().contains(k) {
                let a = choose|a: int| 0 <= a < s1.len() && s1[a] == k;
                assert(s[a + 1] == k);
                assert(K::precedes(s[0], s[a + 1]));
                K::precedes_irreflexive(s[0]);
                assert(s.to_set().contains(k));
                assert(t.to_set().contains(k));
                let b = choose|b: int| 0 <= b < t.len() && t[b] == k;
                assert(b > 0);
                assert(t1[b - 1] == k);
            }
            if t1.to_set().contains(k) {
                let a = choose|a: int| 0 <= a < t1.len() && t1[a] == k;
                assert(t[a + 1] == k);
                assert(K::precedes(t[0], t[a + 1]));
                K::precedes_irreflexive(t[0]);
                assert(t.to_set().contains(k));
                assert(s.to_set().contains(k));
                let b = choose|b: int| 0 <= b < s.len() && s[b] == k;
                assert(b > 0);
                assert(s1[b - 1] == k);
            }
        }
        assert(s1.to_set() =~= t1.to_set());
        lemma_ascending_unique::<K>(s1, t1);
        assert(s == seq![s[0]] + s1);
        assert(t == seq![t[0]] + t1);
    }
}

/// An ascending sequence is the ascending order of its elements.
pub proof fn lemma_ascending_is<K: Ordered>(s: Seq<K::V>)
    requires
        ascends::<K>(s),
    ensures
        ascending::<K>(s.to_set()) == s,
{
    lemma_ascending_unique::<K>(ascending::<K>(s.to_set()), s);
}

/// Where `x` belongs in an ascending sequence that does not hold it.
proof fn lemma_gap<K: Ordered>(s: Seq<K::V>, x: K::V) -> (p: int)
    requires
        ascends::<K>(s),
        !s.contains(x),
    ensures
        0 <= p <= s.len(),
        forall|i: int| 0 <= i < p ==> K::precedes(#[trigger] s[i], x),
        forall|i: int| p <= i < s.len() ==> K::precedes(x, #[trigger] s[i]),
    decreases s.len(),
{
    if s.len() == 0 {
        0
    } else {
        let init = s.drop_last();
        assert(!init.contains(x)) by {
            if init.contains(x) {
                let i = choose|i: int| 0 <= i < init.len() && init[i] == x;
                assert(s[i] == x);
            }
        }
        let last = s[s.len() - 1];
        K::precedes_total(last, x);
        assert(s.contains(last));
        if K::precedes(last, x) {
            assert forall|i: int| 0 <= i < s.len() implies K::precedes(#[trigger] s[i], x) by {
                if i < s.len() - 1 {
                    K::precedes_transitive(s[i], last, x);
                }
            }
            s.len() as int
        } else {
            let p = lemma_gap::<K>(init, x);
            assert forall|i: int| 0 <= i < p implies K::precedes(#[trigger] s[i], x) by {
                assert(K::precedes(init[i], x));
            }
            assert forall|i: int| p <= i < s.len() implies K::precedes(x, #[trigger] s[i]) by {
                if i < s.len() - 1 {
                    assert(K::precedes(x, init[i]));
                }
            }
            p
        }
    }
}

/// Every finite set has an ascending order.
pub proof fn lemma_ascending<K: Ordered>(keys: Set<K::V>)
    requires
        keys.finite(),
    ensures
        ascends::<K>(ascending::<K>(keys)),
        ascending::<K>(keys).to_set() == keys,
        ascending::<K>(keys).len() == keys.len(),
    decreases keys.len(),
{
    let found = if keys.len() == 0 {
        let none = Seq::<K::V>::empty();
        assert(none.to_set() =~= keys);
        none
    } else {
        let x = keys.choose();
        let rest = keys.remove(x);
        lemma_ascending::<K>(rest);
        let s = ascending::<K>(rest);
        assert(!s.contains(x)) by {
            if s.contains(x) {
                assert(s.to_set().contains(x));
            }
        }
        let p = lemma_gap::<K>(s, x);
        let t = s.insert(p, x);
        assert(ascends::<K>(t)) by {
            assert forall|i: int, j: int| 0 <= i < j < t.len() implies K::precedes(t[i], t[j]) by {
                if j < p {
                    assert(K::precedes(s[i], s[j]));
                } else if j == p {
                    assert(K::precedes(s[i], x));
                } else if i < p {
                    assert(K::precedes(s[i], s[j - 1]));
                } else if i == p {
                    assert(K::precedes(x, s[j - 1]));
                } else {
                    assert(K::precedes(s[i - 1], s[j - 1]));
                }
            }
        }
        assert(t.to_set() =~= keys) by {
            assert forall|k: K::V| keys.contains(k) implies t.contains(k) by {
                if k == x {
                    assert(t[p] == k);
                } else {
                    assert(s.to_set().contains(k));
                    let i = choose|i: int| 0 <= i < s.len() && s[i] == k;
                    if i < p {
                        assert(t[i] == k);
                    } else {
                        assert(t[i + 1] == k);
                    }
                }
            }
            assert forall|k: K::V| t.contains(k) implies keys.contains(k) by {
                let i = choose|i: int| 0 <= i < t.len() && t[i] == k;
                if i < p {
                    assert(s.to_set().contains(s[i]));
                } else if i > p {
                    assert(s.to_set().contains(s[i - 1]));
                }
            }
        }
        t
    };
    lemma_ascending_is::<K>(found);
    lemma_ascends_distinct::<K>(found);
    found.unique_seq_to_set();
}

/// No element of an ascending sequence is there twice.
pub proof fn lemma_ascends_distinct<K: Ordered>(s: Seq<K::V>)
    requires
        ascends::<K>(s),
    ensures
        s.no_duplicates(),
{
    assert forall|i: int, j: int| 0 <= i < s.len() && 0 <= j < s.len() && i != j implies s[i]
        != s[j] by {
        K::precedes_irreflexive(s[i]);
        if i < j {
            assert(K::precedes(s[i], s[j]));
        } else {
            assert(K::precedes(s[j], s[i]));
        }
    }
}

/// Leaving elements out keeps the order.
proof fn lemma_filter_ascends<K: Ordered>(s: Seq<K::V>, pred: spec_fn(K::V) -> bool)
    requires
        ascends::<K>(s),
    ensures
        ascends::<K>(s.filter(pred)),
    decreases s.len(),
{
    reveal(Seq::filter);
    if s.len() > 0 {
        let init = s.drop_last();
        lemma_filter_ascends::<K>(init, pred);
        let kept = init.filter(pred);
        assert forall|i: int| 0 <= i < kept.len() implies K::precedes(#[trigger] kept[i], s.last()) by {
            init.lemma_filter_contains_rev(pred, kept[i]);
            let j = choose|j: int| 0 <= j < init.len() && init[j] == kept[i];
            assert(K::precedes(s[j], s[s.len() - 1]));
        }
    }
}

/// A map whose entries stand in ascending order of their keys.
pub struct OrderedMap<K: Ordered, V: View> {
    entries: Vec<(K, V)>,
}

impl<K: Ordered, V: View> OrderedMap<K, V> {
    /// The keys, in the order they are kept in.
    pub closed spec fn keys(&self) -> Seq<K::V> {
        self.entries@.map_values(|e: (K, V)| e.0@)
    }

    /// The value at position `i`.
    pub closed spec fn value(&self, i: int) -> V {
        self.entries@[i].1
    }

    pub open spec fn wf(&self) -> bool {
        ascends::<K>(self.keys())
    }

    /// Position of a key that the map holds.
    pub open spec fn position(&self, key: K::V) -> int {
        choose|i: int| 0 <= i < self.keys().len() && self.keys()[i] == key
    }

    /// What a well-formed map holds: its keys in ascending order, each with
    /// its value.
    pub proof fn lemma_contents(&self)
        requires
            self.wf(),
        ensures
            self@.dom() == self.keys().to_set(),
            self.keys() == ascending::<K>(self@.dom()),
            self@.dom().finite(),
            self@.dom().len() == self.keys().len(),
            forall|i: int|
                0 <= i < self.keys().len() ==> #[trigger] self@.dom().contains(self.keys()[i])
                    && self@[self.keys()[i]] == self.value(i)@,
    {
        assert(self@.dom() =~= self.keys().to_set());
        lemma_ascending_is::<K>(self.keys());
        lemma_ascends_distinct::<K>(self.keys());
        self.keys().unique_seq_to_set();
        vstd::seq_lib::seq_to_set_is_finite(self.keys());
        assert forall|i: int| 0 <= i < self.keys().len() implies #[trigger] self@.dom().contains(
            self.keys()[i],
        ) && self@[self.keys()[i]] == self.value(i)@ by {
            let k = self.keys()[i];
            assert(self.keys()[self.position(k)] == k);
        }
    }

    pub fn new() -> (r: Self)
        ensures
            r.wf(),
            r@ == Map::<K::V, V::V>::empty(),
    {
        let r = OrderedMap { entries: Vec::new() };
        assert(r@ =~= Map::<K::V, V::V>::empty());
        r
    }

    pub fn len(&self) -> (r: usize)
        requires
            self.wf(),
        ensures
            r == self@.dom().len(),
            r == self.keys().len(),
    {
        proof {
            self.lemma_contents();
        }
        self.entries.len()
    }

    pub fn key_at(&self, i: usize) -> (r: &K)
        requires
            i < self.keys().len(),
        ensures
            r@ == self.keys()[i as int],
    {
        &self.entries[i].0
    }

    pub fn value_at(&self, i: usize) -> (r: &V)
        requires
            i < self.keys().len(),
        ensures
            *r == self.value(i as int),
    {
        &self.entries[i].1
    }

    /// The first position whose key does not precede `key`.
    fn seek(&self, key: &K) -> (r: usize)
        requires
            self.wf(),
        ensures
            r <= self.keys().len(),
            forall|j: int| 0 <= j < r ==> K::precedes(#[trigger] self.keys()[j], key@),
            forall|j: int|
                r <= j < self.keys().len() ==> self.keys()[j] == key@ || K::precedes(
                    key@,
                    #[trigger] self.keys()[j],
                ),
    {
        let mut i: usize = 0;
        while i < self.entries.len()
            invariant
                self.wf(),
                i <= self.entries.len(),
                forall|j: int| 0 <= j < i ==> K::precedes(#[trigger] self.keys()[j], key@),
            decreases self.entries.len() - i,
        {
            match self.entries[i].0.place(key) {
                Place::Before => {
                    i = i + 1;
                },
                _ => {
                    proof {
                        assert forall|j: int| i <= j < self.keys().len() implies self.keys()[j]
                            == key@ || K::precedes(key@, #[trigger] self.keys()[j]) by {
                            if j > i && self.keys()[i as int] != key@ {
                                K::precedes_transitive(
                                    key@,
                                    self.keys()[i as int],
                                    self.keys()[j],
                                );
                            }
                        }
                    }
                    return i;
                },
            }
        }
        i
    }

    pub fn get(&self, key: &K) -> (r: Option<&V>)
        requires
            self.wf(),
        ensures
            match r {
                Some(v) => self@.dom().contains(key@) && self@[key@] == v@ && exists|i: int|
                    0 <= i < self.keys().len() && self.keys()[i] == key@ && *v == self.value(i),
                None => !self@.dom().contains(key@),
            },
    {
        let i = self.seek(key);
        proof {
            self.lemma_contents();
        }
        if i < self.entries.len() {
            match self.entries[i].0.place(key) {
                Place::Same => {
                    assert(self.keys()[i as int] == key@);
                    assert(self@.dom().contains(self.keys()[i as int]));
                    assert(self.entries@[i as int].1 == self.value(i as int));
                    return Some(&self.entries[i].1);
                },
                _ => {},
            }
        }
        proof {
            if self@.dom().contains(key@) {
                let p = self.position(key@);
                K::precedes_irreflexive(key@);
                if i < self.keys().len() && p > i {
                    assert(K::precedes(self.keys()[i as int], self.keys()[p]));
                    if K::precedes(key@, self.keys()[i as int]) {
                        K::precedes_transitive(key@, self.keys()[i as int], self.keys()[p]);
                    }
                }
            }
        }
        None
    }

    /// The map with `key` holding `value`, in place of what it held before.
    pub fn insert(self, key: K, value: V) -> (r: Self)
        requires
            self.wf(),
        ensures
            r.wf(),
            r@ == self@.insert(key@, value@),
            forall|i: int|
                0 <= i < r.keys().len() ==> {
                    ||| #[trigger] r.value(i) == value
                    ||| exists|j: int| 0 <= j < self.keys().len() && r.value(i) == self.value(j)
                },
    {
        let i = self.seek(&key);
        let ghost before = self;
        let ghost kv = key@;
        let ghost vv = value@;
        proof {
            before.lemma_contents();
        }
        let same = if i < self.entries.len() {
            match self.entries[i].0.place(&key) {
                Place::Same => true,
                _ => false,
            }
        } else {
            false
        };
        proof {
            K::precedes_irreflexive(kv);
        }
        let mut entries = self.entries;
        if same {
            entries.set(i, (key, value));
        } else {
            entries.insert(i, (key, value));
        }
        let r = OrderedMap { entries };
        proof {
            if same {
                assert(r.keys() =~= before.keys());
                r.lemma_contents();
                assert(r@ =~= before@.insert(kv, vv)) by {
                    assert(before@.dom().contains(before.keys()[i as int]));
                    assert(r@.dom() =~= before@.insert(kv, vv).dom());
                    assert forall|k: K::V| r@.dom().contains(k) implies r@[k] == before@.insert(
                        kv,
                        vv,
                    )[k] by {
                        let p = r.position(k);
                        assert(r.keys()[p] == k);
                        assert(r@.dom().contains(r.keys()[p]));
                        assert(before@.dom().contains(before.keys()[p]));
                        if k == kv {
                            if p < i {
                                K::precedes_irreflexive(kv);
                            } else if p > i {
                                K::precedes_irreflexive(kv);
                                assert(K::precedes(before.keys()[i as int], before.keys()[p]));
                            }
                        }
                    }
                }
            } else {
                assert(r.keys() =~= before.keys().insert(i as int, kv));
                assert(r.wf()) by {
                    assert forall|a: int, b: int| 0 <= a < b < r.keys().len() implies K::precedes(
                        r.keys()[a],
                        r.keys()[b],
                    ) by {
                        let ks = before.keys();
                        assert forall|n: int| i <= n < ks.len() implies K::precedes(
                            kv,
                            #[trigger] ks[n],
                        ) by {
                            if ks[n] == kv && n > i {
                                assert(K::precedes(ks[i as int], ks[n]));
                                K::precedes_transitive(kv, ks[i as int], kv);
                                K::precedes_irreflexive(kv);
                            }
                        }
                        if a == i && b > i {
                            assert(r.keys()[b] == ks[b - 1]);
                        } else if b == i {
                            assert(r.keys()[a] == ks[a]);
                        } else if a < i && b > i {
                            assert(K::precedes(ks[a], ks[b - 1]));
                        } else if a > i {
                            assert(K::precedes(ks[a - 1], ks[b - 1]));
                        } else {
                            assert(K::precedes(ks[a], ks[b]));
                        }
                    }
                }
                r.lemma_contents();
                assert(r@ =~= before@.insert(kv, vv)) by {
                    assert forall|k: K::V| r@.dom().contains(k) == before@.insert(
                        kv,
                        vv,
                    ).dom().contains(k) by {
                        if r@.dom().contains(k) {
                            let p = r.position(k);
                            assert(r.keys()[p] == k);
                            if p < i {
                                assert(before.keys()[p] == k);
                                assert(before@.dom().contains(before.keys()[p]));
                            } else if p > i {
                                assert(before.keys()[p - 1] == k);
                                assert(before@.dom().contains(before.keys()[p - 1]));
                            }
                        }
                        if before@.insert(kv, vv).dom().contains(k) {
                            if k == kv {
                                assert(r.keys()[i as int] == k);
                                assert(r@.dom().contains(r.keys()[i as int]));
                            } else {
                                let p = before.position(k);
                                if p < i {
                                    assert(r.keys()[p] == k);
                                    assert(r@.dom().contains(r.keys()[p]));
                                } else {
                                    assert(r.keys()[p + 1] == k);
                                    assert(r@.dom().contains(r.keys()[p + 1]));
                                }
                            }
                        }
                    }
                    assert forall|k: K::V| r@.dom().contains(k) implies r@[k] == before@.insert(
                        kv,
                        vv,
                    )[k] by {
                        let p = r.position(k);
                        assert(r@.dom().contains(r.keys()[p]));
                        if p < i {
                            K::precedes_irreflexive(kv);
                            assert(before@.dom().contains(before.keys()[p]));
                        } else if p > i {
                            K::precedes_irreflexive(kv);
                            assert(K::precedes(r.keys()[i as int], r.keys()[p]));
                            assert(before@.dom().contains(before.keys()[p - 1]));
                        }
                    }
                }
            }
            assert forall|j: int| 0 <= j < r.keys().len() implies {
                ||| #[trigger] r.value(j) == value
                ||| exists|k: int| 0 <= k < before.keys().len() && r.value(j) == before.value(k)
            } by {
                if j < i {
                    assert(r.value(j) == before.value(j));
                } else if j > i {
                    if same {
                        assert(r.value(j) == before.value(j));
                    } else {
                        assert(r.value(j) == before.value(j - 1));
                    }
                }
            }
        }
        r
    }
}

impl<K: Ordered, V: View> View for OrderedMap<K, V> {
    type V = Map<K::V, V::V>;

    open spec fn view(&self) -> Map<K::V, V::V> {
        Map::new(
            |k: K::V| self.keys().contains(k),
            |k: K::V| self.value(self.position(k))@,
        )
    }
}

/// A set whose elements stand in ascending order.
pub struct OrderedSet<K: Ordered> {
    map: OrderedMap<K, ()>,
}

impl<K: Ordered> View for OrderedSet<K> {
    type V = Set<K::V>;

    closed spec fn view(&self) -> Set<K::V> {
        self.map@.dom()
    }
}

impl<K: Ordered> OrderedSet<K> {
    /// The elements, in the order they are kept in.
    pub closed spec fn keys(&self) -> Seq<K::V> {
        self.map.keys()
    }

    pub closed spec fn wf(&self) -> bool {
        self.map.wf()
    }

    /// What a well-formed set holds: its elements, in ascending order.
    pub proof fn lemma_contents(&self)
        requires
            self.wf(),
        ensures
            self@ == self.keys().to_set(),
            ascends::<K>(self.keys()),
            self.keys() == ascending::<K>(self@),
            self@.finite(),
            self@.len() == self.keys().len(),
    {
        self.map.lemma_contents();
    }

    pub fn new() -> (r: Self)
        ensures
            r.wf(),
            r@ == Set::<K::V>::empty(),
    {
        let r = OrderedSet { map: OrderedMap::new() };
        assert(r@ =~= Set::<K::V>::empty());
        r
    }

    pub fn len(&self) -> (r: usize)
        requires
            self.wf(),
        ensures
            r == self@.len(),
            r == self.keys().len(),
    {
        self.map.len()
    }

    pub fn key_at(&self, i: usize) -> (r: &K)
        requires
            i < self.keys().len(),
        ensures
            r@ == self.keys()[i as int],
    {
        self.map.key_at(i)
    }

    pub fn contains(&self, key: &K) -> (r: bool)
        requires
            self.wf(),
        ensures
            r == self@.contains(key@),
    {
        match self.map.get(key) {
            Some(_) => true,
            None => false,
        }
    }

    pub fn insert(self, key: K) -> (r: Self)
        requires
            self.wf(),
        ensures
            r.wf(),
            r@ == self@.insert(key@),
    {
        let ghost before = self@;
        let r = OrderedSet { map: self.map.insert(key, ()) };
        assert(r@ =~= before.insert(key@));
        r
    }

    /// Whether every element is one of `other`.
    pub fn is_subset(&self, other: &Self) -> (r: bool)
        requires
            self.wf(),
            other.wf(),
        ensures
            r == self@.subset_of(other@),
    {
        proof {
            self.lemma_contents();
        }
        let n: usize = self.len();
        for i in 0..n
            invariant
                n == self.keys().len(),
                self.wf(),
                other.wf(),
                self@ == self.keys().to_set(),
                forall|j: int| 0 <= j < i ==> other@.contains(#[trigger] self.keys()[j]),
        {
            if !other.contains(self.key_at(i)) {
                assert(self.keys().to_set().contains(self.keys()[i as int]));
                return false;
            }
        }
        true
    }
}

impl OrderedSet<String> {
    /// The elements as strings, in ascending order.
    pub fn list(&self) -> (r: Vec<String>)
        requires
            self.wf(),
        ensures
            texts(r@) == self.keys(),
    {
        let mut out: Vec<String> = Vec::new();
        let n: usize = self.len();
        for i in 0..n
            invariant
                n == self.keys().len(),
                self.wf(),
                texts(out@) == self.keys().take(i as int),
        {
            out.push(self.key_at(i).clone());
            assert(self.keys().take(i + 1) == self.keys().take(i as int).push(
                self.keys()[i as int],
            ));
            assert(texts(out@) == self.keys().take(i + 1));
        }
        assert(self.keys().take(self.keys().len() as int) == self.keys());
        out
    }

    /// The elements that are not in `other`, in ascending order.
    pub fn difference(&self, other: &Self) -> (r: Vec<String>)
        requires
            self.wf(),
            other.wf(),
        ensures
            texts(r@) == ascending::<String>(self@.difference(other@)),
    {
        let mut out: Vec<String> = Vec::new();
        let ghost missing = |k: Seq<char>| !other@.contains(k);
        assert(self.keys().take(0).filter(missing) =~= Seq::<Seq<char>>::empty()) by {
            reveal_with_fuel(Seq::filter, 1);
        }
        let n: usize = self.len();
        for i in 0..n
            invariant
                n == self.keys().len(),
                self.wf(),
                other.wf(),
                missing == (|k: Seq<char>| !other@.contains(k)),
                texts(out@) == self.keys().take(i as int).filter(missing),
        {
            let key = self.key_at(i);
            proof {
                assert(self.keys().take(i + 1) == self.keys().take(i as int).push(
                    self.keys()[i as int],
                ));
                self.keys().take(i as int).lemma_filter_push(self.keys()[i as int], missing);
            }
            if !other.contains(key) {
                let ghost before = out@;
                out.push(key.clone());
                assert(texts(out@) == texts(before).push(self.keys()[i as int]));
            }
        }
        assert(self.keys().take(self.keys().len() as int) == self.keys());
        proof {
            self.lemma_contents();
            lemma_filter_ascends::<String>(self.keys(), missing);
            broadcast use Seq::lemma_filter_pred;

            let kept = self.keys().filter(missing);
            assert(kept.to_set() =~= self@.difference(other@)) by {
                assert forall|k: Seq<char>| self@.difference(other@).contains(k) implies kept.contains(
                    k,
                ) by {
                    assert(self.keys().contains(k));
                    let m = choose|m: int| 0 <= m < self.keys().len() && self.keys()[m] == k;
                    self.keys().lemma_filter_contains(missing, m);
                }
                assert forall|k: Seq<char>| kept.contains(k) implies self@.difference(
                    other@,
                ).contains(k) by {
                    let m = choose|m: int| 0 <= m < kept.len() && kept[m] == k;
                    assert(missing(kept[m]));
                    self.keys().lemma_filter_contains_rev(missing, k);
                }
            }
            lemma_ascending_is::<String>(kept);
        }
        out
    }
}

} // verus!
