//! Ordered containers keyed by text: a map from texts to values and a set of
//! name/id pairs. Both keep their entries strictly ascending.
use vstd::prelude::*;
use crate::text::{lemma_text_lt_total, lemma_text_lt_trans, text_before, text_eq, text_lt};

verus! {

/// Whether the texts come in strictly ascending order.
pub open spec fn ascending(ks: Seq<Seq<char>>) -> bool {
    forall|i: int, j: int|
        0 <= i < j < ks.len() ==> text_lt(#[trigger] ks[i], #[trigger] ks[j])
}

/// Whether the keys of the entries come in strictly ascending order.
spec fn keyed<A>(es: Seq<(Seq<char>, A)>) -> bool {
    forall|i: int, j: int|
        0 <= i < j < es.len() ==> text_lt((#[trigger] es[i]).0, (#[trigger] es[j]).0)
}

spec fn place<A>(es: Seq<(Seq<char>, A)>, k: Seq<char>) -> int {
    choose|i: int| 0 <= i < es.len() && (#[trigger] es[i]).0 == k
}

/// The map that the entries stand for.
spec fn map_of<A>(es: Seq<(Seq<char>, A)>) -> Map<Seq<char>, A> {
    Map::new(
        |k: Seq<char>| exists|i: int| 0 <= i < es.len() && (#[trigger] es[i]).0 == k,
        |k: Seq<char>| es[place(es, k)].1,
    )
}

proof fn lemma_map_at<A>(es: Seq<(Seq<char>, A)>, i: int)
    requires
        keyed(es),
        0 <= i < es.len(),
    ensures
        map_of(es).dom().contains(es[i].0),
        map_of(es)[es[i].0] == es[i].1,
{
    let k = es[i].0;
    assert(es[i].0 == k);
    let p = place(es, k);
    lemma_text_lt_total(k, k);
    if p < i {
        assert(text_lt(es[p].0, es[i].0));
    } else if i < p {
        assert(text_lt(es[i].0, es[p].0));
    }
}

proof fn lemma_map_insert<A>(es: Seq<(Seq<char>, A)>, p: int, k: Seq<char>, v: A)
    requires
        keyed(es),
        0 <= p <= es.len(),
        forall|i: int| 0 <= i < p ==> text_lt((#[trigger] es[i]).0, k),
        forall|i: int| p <= i < es.len() ==> text_lt(k, (#[trigger] es[i]).0),
    ensures
        keyed(es.insert(p, (k, v))),
        map_of(es.insert(p, (k, v))) == map_of(es).insert(k, v),
{
    let fs = es.insert(p, (k, v));
    assert(forall|i: int| 0 <= i < p ==> fs[i] == es[i]);
    assert(forall|i: int| p < i < fs.len() ==> fs[i] == es[i - 1]);
    assert forall|i: int, j: int| 0 <= i < j < fs.len() implies text_lt(
        (#[trigger] fs[i]).0,
        (#[trigger] fs[j]).0,
    ) by {
        if i < p && j == p {
            assert(text_lt(es[i].0, k));
        } else if i == p {
            assert(text_lt(k, es[j - 1].0));
        } else if i > p {
            assert(text_lt(es[i - 1].0, es[j - 1].0));
        } else if j > p {
            assert(text_lt(es[i].0, es[j - 1].0));
        }
    }
    assert forall|x: Seq<char>| #[trigger]
        map_of(fs).dom().contains(x) == map_of(es).insert(k, v).dom().contains(x) by {
        if map_of(fs).dom().contains(x) {
            let i = place(fs, x);
            if i < p {
                assert(es[i].0 == x);
            } else if i > p {
                assert(es[i - 1].0 == x);
            }
        }
        if map_of(es).dom().contains(x) {
            let i = place(es, x);
            if i < p {
                assert(fs[i].0 == x);
            } else {
                assert(fs[i + 1].0 == x);
            }
        }
        if x == k {
            assert(fs[p].0 == x);
        }
    }
    assert forall|x: Seq<char>| #[trigger] map_of(fs).dom().contains(x) implies map_of(fs)[x]
        == map_of(es).insert(k, v)[x] by {
        let i = place(fs, x);
        lemma_map_at(fs, i);
        if i == p {
        } else {
            lemma_text_lt_total(x, k);
            if i < p {
                lemma_map_at(es, i);
                assert(text_lt(es[i].0, k));
            } else {
                lemma_map_at(es, i - 1);
                assert(text_lt(k, es[i - 1].0));
            }
        }
    }
    assert(map_of(fs) =~= map_of(es).insert(k, v));
}

proof fn lemma_map_remove<A>(es: Seq<(Seq<char>, A)>, p: int)
    requires
        keyed(es),
        0 <= p < es.len(),
    ensures
        keyed(es.remove(p)),
        map_of(es.remove(p)) == map_of(es).remove(es[p].0),
{
    let fs = es.remove(p);
    let k = es[p].0;
    assert(forall|i: int| 0 <= i < p ==> fs[i] == es[i]);
    assert(forall|i: int| p <= i < fs.len() ==> fs[i] == es[i + 1]);
    assert forall|i: int, j: int| 0 <= i < j < fs.len() implies text_lt(
        (#[trigger] fs[i]).0,
        (#[trigger] fs[j]).0,
    ) by {
        let a = if i < p { i } else { i + 1 };
        let b = if j < p { j } else { j + 1 };
        assert(text_lt(es[a].0, es[b].0));
    }
    assert forall|x: Seq<char>| #[trigger]
        map_of(fs).dom().contains(x) == map_of(es).remove(k).dom().contains(x) by {
        lemma_text_lt_total(k, k);
        if map_of(fs).dom().contains(x) {
            let i = place(fs, x);
            if i < p {
                assert(es[i].0 == x);
                assert(text_lt(es[i].0, es[p].0));
            } else {
                assert(es[i + 1].0 == x);
                assert(text_lt(es[p].0, es[i + 1].0));
            }
        }
        if map_of(es).dom().contains(x) && x != k {
            let i = place(es, x);
            if i < p {
                assert(fs[i].0 == x);
            } else {
                assert(fs[i - 1].0 == x);
            }
        }
    }
    assert forall|x: Seq<char>| #[trigger] map_of(fs).dom().contains(x) implies map_of(fs)[x]
        == map_of(es).remove(k)[x] by {
        let i = place(fs, x);
        lemma_map_at(fs, i);
        if i < p {
            lemma_map_at(es, i);
        } else {
            lemma_map_at(es, i + 1);
        }
    }
    assert(map_of(fs) =~= map_of(es).remove(k));
}

/// Map from texts to values, kept as entries with strictly ascending keys.
#[derive(Debug)]
pub struct TextMap<V> {
    entries: Vec<(String, V)>,
}

impl<V: View> View for TextMap<V> {
    type V = Map<Seq<char>, V::V>;

    closed spec fn view(&self) -> Map<Seq<char>, V::V> {
        map_of(self.pairs())
    }
}

impl<V> TextMap<V> {
    /// The keys in ascending order.
    pub closed spec fn keys(self) -> Seq<Seq<char>> {
        self.entries@.map_values(|e: (String, V)| e.0@)
    }

    #[verifier::type_invariant]
    spec fn inv(self) -> bool {
        ascending(self.keys())
    }
}

impl<V: View> TextMap<V> {
    spec fn pairs(self) -> Seq<(Seq<char>, V::V)> {
        self.entries@.map_values(|e: (String, V)| (e.0@, e.1@))
    }

    proof fn lemma_pairs(self)
        ensures
            ascending(self.keys()) == keyed(self.pairs()),
            self.pairs().len() == self.keys().len() == self.entries@.len(),
            forall|i: int|
                0 <= i < self.entries@.len() ==> #[trigger] self.pairs()[i] == (
                    self.keys()[i],
                    self.entries@[i].1@,
                ) && self.keys()[i] == self.entries@[i].0@,
    {
        let ks = self.keys();
        let es = self.pairs();
        assert(forall|i: int| 0 <= i < es.len() ==> (#[trigger] es[i]).0 == ks[i]);
        if ascending(ks) {
            assert forall|i: int, j: int| 0 <= i < j < es.len() implies text_lt(
                (#[trigger] es[i]).0,
                (#[trigger] es[j]).0,
            ) by {
                assert(text_lt(ks[i], ks[j]));
            }
        }
        if keyed(es) {
            assert forall|i: int, j: int| 0 <= i < j < ks.len() implies text_lt(
                #[trigger] ks[i],
                #[trigger] ks[j],
            ) by {
                assert(text_lt(es[i].0, es[j].0));
            }
        }
    }

    /// An empty map.
    pub fn new() -> (r: Self)
        ensures
            r@ == Map::<Seq<char>, V::V>::empty(),
    {
        let r = TextMap { entries: Vec::new() };
        assert(r@ =~= Map::<Seq<char>, V::V>::empty());
        r
    }

    /// Number of entries.
    pub fn len(&self) -> (r: usize)
        ensures
            r == self.keys().len(),
            ascending(self.keys()),
            forall|k: Seq<char>|
                self.keys().contains(k) <==> #[trigger] self@.dom().contains(k),
            self@.dom() == self.keys().to_set(),
            self@.dom().finite(),
            r == self@.dom().len(),
    {
        proof {
            use_type_invariant(self);
            self.lemma_pairs();
            let es = self.pairs();
            assert forall|k: Seq<char>|
                self.keys().contains(k) <==> #[trigger] self@.dom().contains(k) by {
                if self.keys().contains(k) {
                    let i = choose|i: int| 0 <= i < self.keys().len() && self.keys()[i] == k;
                    assert(es[i].0 == k);
                }
                if self@.dom().contains(k) {
                    let i = place(es, k);
                    assert(es[i].0 == k);
                    assert(self.keys()[i] == k);
                }
            }
            assert(self@.dom() =~= self.keys().to_set());
            let ks = self.keys();
            assert forall|i: int, j: int| 0 <= i < j < ks.len() implies ks[i] != ks[j] by {
                assert(text_lt(ks[i], ks[j]));
                lemma_text_lt_total(ks[i], ks[j]);
            }
            assert(ks.no_duplicates());
            ks.unique_seq_to_set();
        }
        self.entries.len()
    }

    /// Whether there is no entry.
    pub fn is_empty(&self) -> (r: bool)
        ensures
            r == (self@ == Map::<Seq<char>, V::V>::empty()),
    {
        let n = self.len();
        proof {
            if n == 0 {
                assert(self@ =~= Map::<Seq<char>, V::V>::empty());
            } else {
                assert(self.keys().contains(self.keys()[0]));
                assert(self@.dom().contains(self.keys()[0]));
            }
        }
        n == 0
    }

    /// The `i`-th key, in ascending order.
    pub fn key_at(&self, i: usize) -> (r: &String)
        requires
            i < self.keys().len(),
        ensures
            r@ == self.keys()[i as int],
            self@.dom().contains(r@),
    {
        proof {
            use_type_invariant(self);
            self.lemma_pairs();
            lemma_map_at(self.pairs(), i as int);
            assert(self.pairs()[i as int].0 == self.keys()[i as int]);
        }
        &self.entries[i].0
    }

    /// The value of the `i`-th key, in ascending order.
    pub fn value_at(&self, i: usize) -> (r: &V)
        requires
            i < self.keys().len(),
        ensures
            self@.dom().contains(self.keys()[i as int]),
            r@ == self@[self.keys()[i as int]],
    {
        proof {
            use_type_invariant(self);
            self.lemma_pairs();
            lemma_map_at(self.pairs(), i as int);
            assert(self.pairs()[i as int].0 == self.keys()[i as int]);
        }
        &self.entries[i].1
    }

    /// Position of the first entry whose key is not before `key`.
    fn lower_bound(&self, key: &str) -> (r: usize)
        ensures
            r <= self.entries@.len(),
            forall|i: int| 0 <= i < r ==> text_lt(#[trigger] self.keys()[i], key@),
            forall|i: int|
                r <= i < self.entries@.len() ==> !text_lt(#[trigger] self.keys()[i], key@),
    {
        proof {
            use_type_invariant(self);
        }
        let ghost ks = self.keys();
        let mut lo: usize = 0;
        let mut hi: usize = self.entries.len();
        while lo < hi
            invariant
                lo <= hi <= self.entries@.len(),
                ks == self.keys(),
                ks.len() == self.entries@.len(),
                ascending(ks),
                forall|i: int| 0 <= i < lo ==> text_lt(#[trigger] ks[i], key@),
                forall|i: int| hi <= i < ks.len() ==> !text_lt(#[trigger] ks[i], key@),
            decreases hi - lo,
        {
            let mid: usize = lo + (hi - lo) / 2;
            assert(self.entries@[mid as int].0@ == ks[mid as int]);
            if text_before(self.entries[mid].0.as_str(), key) {
                proof {
                    assert forall|i: int| 0 <= i < mid + 1 implies text_lt(
                        #[trigger] ks[i],
                        key@,
                    ) by {
                        if i < mid {
                            lemma_text_lt_trans(ks[i], ks[mid as int], key@);
                        }
                    }
                }
                lo = mid + 1;
            } else {
                proof {
                    assert forall|i: int| mid <= i < ks.len() implies !text_lt(
                        #[trigger] ks[i],
                        key@,
                    ) by {
                        if mid < i && text_lt(ks[i], key@) {
                            lemma_text_lt_trans(ks[mid as int], ks[i], key@);
                        }
                    }
                }
                hi = mid;
            }
        }
        lo
    }

    /// Position of `key`.
    fn find(&self, key: &str) -> (r: Option<usize>)
        ensures
            match r {
                Some(i) => i < self.entries@.len() && self.keys()[i as int] == key@
                    && self@.dom().contains(key@) && self@[key@] == self.entries@[i as int].1@,
                None => !self@.dom().contains(key@),
            },
    {
        proof {
            use_type_invariant(self);
            self.lemma_pairs();
        }
        let p = self.lower_bound(key);
        if p < self.entries.len() && text_eq(self.entries[p].0.as_str(), key) {
            proof {
                lemma_map_at(self.pairs(), p as int);
                assert(self.pairs()[p as int].0 == key@);
            }
            return Some(p);
        }
        proof {
            if self@.dom().contains(key@) {
                let i = place(self.pairs(), key@);
                assert(self.pairs()[i].0 == key@);
                assert(self.keys()[i] == key@);
                lemma_text_lt_total(key@, key@);
                if p < i {
                    assert(text_lt(self.keys()[p as int], self.keys()[i]));
                }
            }
        }
        None
    }

    /// The value stored under `key`.
    pub fn get(&self, key: &str) -> (r: Option<&V>)
        ensures
            match r {
                Some(v) => self@.dom().contains(key@) && v@ == self@[key@],
                None => !self@.dom().contains(key@),
            },
    {
        match self.find(key) {
            Some(i) => Some(&self.entries[i].1),
            None => None,
        }
    }

    /// Whether there is an entry for `key`.
    pub fn contains_key(&self, key: &str) -> (r: bool)
        ensures
            r == self@.dom().contains(key@),
    {
        self.find(key).is_some()
    }

    /// Takes out the entry for `key`.
    pub fn remove(&mut self, key: &str) -> (r: Option<V>)
        ensures
            final(self)@ == old(self)@.remove(key@),
            match r {
                Some(v) => old(self)@.dom().contains(key@) && v@ == old(self)@[key@],
                None => !old(self)@.dom().contains(key@),
            },
    {
        proof {
            use_type_invariant(&*self);
            self.lemma_pairs();
        }
        let ghost before = *self;
        match self.find(key) {
            Some(p) => {
                let mut es: Vec<(String, V)> = Vec::new();
                std::mem::swap(&mut es, &mut self.entries);
                let e = es.remove(p);
                proof {
                    lemma_map_remove(before.pairs(), p as int);
                    let after = TextMap { entries: es };
                    after.lemma_pairs();
                    assert(after.pairs() =~= before.pairs().remove(p as int));
                }
                self.entries = es;
                Some(e.1)
            },
            None => {
                assert(before@.remove(key@) =~= before@);
                None
            },
        }
    }

    /// Stores `value` under `key`, replacing what was there.
    pub fn insert(&mut self, key: String, value: V)
        ensures
            final(self)@ == old(self)@.insert(key@, value@),
    {
        let ghost first = self@;
        self.remove(key.as_str());
        proof {
            use_type_invariant(&*self);
            self.lemma_pairs();
        }
        let ghost before = *self;
        let ghost k = key@;
        let ghost v = value@;
        let p = self.lower_bound(key.as_str());
        let mut es: Vec<(String, V)> = Vec::new();
        std::mem::swap(&mut es, &mut self.entries);
        es.insert(p, (key, value));
        proof {
            let bs = before.pairs();
            assert forall|i: int| 0 <= i < p implies text_lt((#[trigger] bs[i]).0, k) by {
                assert(text_lt(before.keys()[i], k));
            }
            assert forall|i: int| p <= i < bs.len() implies text_lt(k, (#[trigger] bs[i]).0) by {
                assert(!text_lt(before.keys()[i], k));
                lemma_map_at(bs, i);
                lemma_text_lt_total(bs[i].0, k);
            }
            lemma_map_insert(bs, p as int, k, v);
            let after = TextMap { entries: es };
            after.lemma_pairs();
            assert(after.pairs() =~= bs.insert(p as int, (k, v)));
            assert(first.remove(k).insert(k, v) =~= first.insert(k, v));
        }
        self.entries = es;
    }
}

/// Values that can be copied without changing what they stand for.
pub trait Duplicate: View + Sized {
    /// A copy with the same view.
    fn duplicate(&self) -> (r: Self)
        ensures
            r@ == self@,
    ;
}

impl<V: Duplicate> Clone for TextMap<V> {
    fn clone(&self) -> (r: Self)
        ensures
            r@ == self@,
    {
        proof {
            use_type_invariant(self);
            self.lemma_pairs();
        }
        let mut es: Vec<(String, V)> = Vec::new();
        for i in 0..self.entries.len()
            invariant
                es@.len() == i,
                forall|j: int|
                    0 <= j < i ==> (#[trigger] es@[j]).0@ == self.entries@[j].0@ && es@[j].1@
                        == self.entries@[j].1@,
        {
            es.push((self.entries[i].0.clone(), self.entries[i].1.duplicate()));
        }
        proof {
            let after = TextMap { entries: es };
            after.lemma_pairs();
            assert(after.pairs() =~= self.pairs());
        }
        TextMap { entries: es }
    }
}

/// Whether pair `a` comes before pair `b`: by name, then by id.
pub open spec fn pair_lt(a: (Seq<char>, Seq<char>), b: (Seq<char>, Seq<char>)) -> bool {
    text_lt(a.0, b.0) || (a.0 == b.0 && text_lt(a.1, b.1))
}

/// Whether the pairs come in strictly ascending order.
pub open spec fn pairs_ascending(q: Seq<(Seq<char>, Seq<char>)>) -> bool {
    forall|i: int, j: int|
        0 <= i < j < q.len() ==> pair_lt(#[trigger] q[i], #[trigger] q[j])
}

/// The elements of the set in ascending order.
pub open spec fn in_order(s: Set<(Seq<char>, Seq<char>)>) -> Seq<(Seq<char>, Seq<char>)> {
    choose|q: Seq<(Seq<char>, Seq<char>)>| pairs_ascending(q) && q.to_set() == s
}

/// The order of pairs is total and irreflexive.
pub proof fn lemma_pair_lt_total(a: (Seq<char>, Seq<char>), b: (Seq<char>, Seq<char>))
    ensures
        a == b ==> !pair_lt(a, b),
        pair_lt(a, b) ==> !pair_lt(b, a) && a != b,
        a != b ==> pair_lt(a, b) || pair_lt(b, a),
{
    lemma_text_lt_total(a.0, b.0);
    lemma_text_lt_total(a.1, b.1);
}

/// The order of pairs is transitive.
pub proof fn lemma_pair_lt_trans(
    a: (Seq<char>, Seq<char>),
    b: (Seq<char>, Seq<char>),
    c: (Seq<char>, Seq<char>),
)
    requires
        pair_lt(a, b),
        pair_lt(b, c),
    ensures
        pair_lt(a, c),
{
    if text_lt(a.0, b.0) && text_lt(b.0, c.0) {
        lemma_text_lt_trans(a.0, b.0, c.0);
    } else if a.0 == b.0 && b.0 == c.0 {
        lemma_text_lt_trans(a.1, b.1, c.1);
    }
}

/// Two ascending lists of the same pairs are the same list.
pub proof fn lemma_order_unique(
    p: Seq<(Seq<char>, Seq<char>)>,
    q: Seq<(Seq<char>, Seq<char>)>,
)
    requires
        pairs_ascending(p),
        pairs_ascending(q),
        p.to_set() == q.to_set(),
    ensures
        p == q,
    decreases p.len(),
{
    if p.len() == 0 {
        if q.len() > 0 {
            assert(q.to_set().contains(q[0]));
            assert(p.to_set().contains(q[0]));
        }
        assert(p =~= q);
    } else {
        assert(p.to_set().contains(p.last()));
        assert(q.to_set().contains(p.last()));
        let j = choose|j: int| 0 <= j < q.len() && q[j] == p.last();
        assert(q.to_set().contains(q.last()));
        assert(p.to_set().contains(q.last()));
        let i = choose|i: int| 0 <= i < p.len() && p[i] == q.last();
        lemma_pair_lt_total(p.last(), q.last());
        if p.last() != q.last() {
            assert(pair_lt(q[j], q[q.len() - 1]));
            assert(pair_lt(p[i], p[p.len() - 1]));
        }
        let a = p.drop_last();
        let b = q.drop_last();
        assert forall|x: (Seq<char>, Seq<char>)|
            a.to_set().contains(x) == b.to_set().contains(x) by {
            lemma_pair_lt_total(p.last(), p.last());
            if a.to_set().contains(x) {
                let k = choose|k: int| 0 <= k < a.len() && a[k] == x;
                assert(pair_lt(p[k], p[p.len() - 1]));
                assert(p.to_set().contains(p[k]));
                assert(q.to_set().contains(x));
                let m = choose|m: int| 0 <= m < q.len() && q[m] == x;
                assert(b[m] == x);
            }
            if b.to_set().contains(x) {
                let k = choose|k: int| 0 <= k < b.len() && b[k] == x;
                assert(pair_lt(q[k], q[q.len() - 1]));
                assert(q.to_set().contains(q[k]));
                assert(p.to_set().contains(x));
                let m = choose|m: int| 0 <= m < p.len() && p[m] == x;
                assert(a[m] == x);
            }
        }
        assert(a.to_set() =~= b.to_set());
        lemma_order_unique(a, b);
        assert(p =~= a.push(p.last()));
        assert(q =~= b.push(q.last()));
    }
}

/// An ascending list is the ordered form of its set.
pub proof fn lemma_in_order(q: Seq<(Seq<char>, Seq<char>)>)
    requires
        pairs_ascending(q),
    ensures
        in_order(q.to_set()) == q,
{
    lemma_order_unique(in_order(q.to_set()), q);
}

/// Set of name/id pairs, kept in strictly ascending order.
#[derive(Debug)]
pub struct NameSet {
    items: Vec<(String, String)>,
}

impl View for NameSet {
    type V = Set<(Seq<char>, Seq<char>)>;

    closed spec fn view(&self) -> Set<(Seq<char>, Seq<char>)> {
        self.listed().to_set()
    }
}

impl NameSet {
    /// The pairs in ascending order.
    pub closed spec fn listed(self) -> Seq<(Seq<char>, Seq<char>)> {
        self.items@.map_values(|e: (String, String)| (e.0@, e.1@))
    }

    #[verifier::type_invariant]
    spec fn inv(self) -> bool {
        pairs_ascending(self.listed())
    }

    /// An empty set.
    pub fn new() -> (r: Self)
        ensures
            r@ == Set::<(Seq<char>, Seq<char>)>::empty(),
    {
        let r = NameSet { items: Vec::new() };
        assert(r@ =~= Set::<(Seq<char>, Seq<char>)>::empty());
        r
    }

    /// Number of pairs.
    pub fn len(&self) -> (r: usize)
        ensures
            r == self.listed().len(),
            pairs_ascending(self.listed()),
            self.listed() == in_order(self@),
            self.listed().to_set() == self@,
    {
        proof {
            use_type_invariant(self);
            lemma_in_order(self.listed());
        }
        self.items.len()
    }

    /// The name of the `i`-th pair, in ascending order.
    pub fn name_at(&self, i: usize) -> (r: &String)
        requires
            i < self.listed().len(),
        ensures
            r@ == self.listed()[i as int].0,
    {
        &self.items[i].0
    }

    /// The id of the `i`-th pair, in ascending order.
    pub fn id_at(&self, i: usize) -> (r: &String)
        requires
            i < self.listed().len(),
        ensures
            r@ == self.listed()[i as int].1,
    {
        &self.items[i].1
    }

    /// Number of pairs before `(name, id)`.
    fn rank(&self, name: &str, id: &str) -> (r: usize)
        ensures
            r <= self.items@.len(),
            forall|i: int| 0 <= i < r ==> pair_lt(#[trigger] self.listed()[i], (name@, id@)),
            forall|i: int|
                r <= i < self.items@.len() ==> !pair_lt(
                    #[trigger] self.listed()[i],
                    (name@, id@),
                ),
    {
        proof {
            use_type_invariant(self);
        }
        let ghost q = self.listed();
        let ghost x = (name@, id@);
        let mut lo: usize = 0;
        let mut hi: usize = self.items.len();
        while lo < hi
            invariant
                lo <= hi <= self.items@.len(),
                q == self.listed(),
                x == (name@, id@),
                q.len() == self.items@.len(),
                pairs_ascending(q),
                forall|i: int| 0 <= i < lo ==> pair_lt(#[trigger] q[i], x),
                forall|i: int| hi <= i < q.len() ==> !pair_lt(#[trigger] q[i], x),
            decreases hi - lo,
        {
            let mid: usize = lo + (hi - lo) / 2;
            let e = &self.items[mid];
            assert(q[mid as int] == (e.0@, e.1@));
            if text_before(e.0.as_str(), name) || (text_eq(e.0.as_str(), name) && text_before(
                e.1.as_str(),
                id,
            )) {
                proof {
                    assert forall|i: int| 0 <= i < mid + 1 implies pair_lt(
                        #[trigger] q[i],
                        x,
                    ) by {
                        if i < mid {
                            lemma_pair_lt_trans(q[i], q[mid as int], x);
                        }
                    }
                }
                lo = mid + 1;
            } else {
                proof {
                    assert forall|i: int| mid <= i < q.len() implies !pair_lt(
                        #[trigger] q[i],
                        x,
                    ) by {
                        if mid < i && pair_lt(q[i], x) {
                            lemma_pair_lt_trans(q[mid as int], q[i], x);
                        }
                    }
                }
                hi = mid;
            }
        }
        lo
    }

    /// Position of the pair `(name, id)`.
    fn find(&self, name: &str, id: &str) -> (r: Option<usize>)
        ensures
            match r {
                Some(i) => i < self.items@.len() && self.listed()[i as int] == (name@, id@),
                None => !self@.contains((name@, id@)),
            },
    {
        proof {
            use_type_invariant(self);
        }
        let p = self.rank(name, id);
        if p < self.items.len() && text_eq(self.items[p].0.as_str(), name) && text_eq(
            self.items[p].1.as_str(),
            id,
        ) {
            return Some(p);
        }
        proof {
            let q = self.listed();
            let x = (name@, id@);
            if self@.contains(x) {
                let i = choose|i: int| 0 <= i < q.len() && q[i] == x;
                lemma_pair_lt_total(x, x);
                if p < i {
                    assert(pair_lt(q[p as int], q[i]));
                }
            }
        }
        None
    }

    /// Whether the pair is in the set.
    pub fn contains(&self, name: &str, id: &str) -> (r: bool)
        ensures
            r == self@.contains((name@, id@)),
    {
        match self.find(name, id) {
            Some(i) => {
                assert(self.listed().contains(self.listed()[i as int]));
                true
            },
            None => false,
        }
    }

    /// Takes the pair out of the set.
    pub fn remove(&mut self, name: &str, id: &str)
        ensures
            final(self)@ == old(self)@.remove((name@, id@)),
    {
        proof {
            use_type_invariant(&*self);
        }
        let ghost before = *self;
        let ghost x = (name@, id@);
        match self.find(name, id) {
            Some(p) => {
                let mut es: Vec<(String, String)> = Vec::new();
                std::mem::swap(&mut es, &mut self.items);
                es.remove(p);
                proof {
                    let q = before.listed();
                    let after = NameSet { items: es };
                    let f = after.listed();
                    assert(f =~= q.remove(p as int));
                    assert forall|i: int, j: int| 0 <= i < j < f.len() implies pair_lt(
                        #[trigger] f[i],
                        #[trigger] f[j],
                    ) by {
                        let a = if i < p { i } else { i + 1 };
                        let b = if j < p { j } else { j + 1 };
                        assert(pair_lt(q[a], q[b]));
                    }
                    assert forall|y: (Seq<char>, Seq<char>)|
                        f.to_set().contains(y) == q.to_set().remove(x).contains(y) by {
                        lemma_pair_lt_total(x, x);
                        if f.to_set().contains(y) {
                            let i = choose|i: int| 0 <= i < f.len() && f[i] == y;
                            let a = if i < p { i } else { i + 1 };
                            assert(q[a] == y);
                            if a < p {
                                assert(pair_lt(q[a], q[p as int]));
                            } else {
                                assert(pair_lt(q[p as int], q[a]));
                            }
                        }
                        if q.to_set().contains(y) && y != x {
                            let i = choose|i: int| 0 <= i < q.len() && q[i] == y;
                            let a = if i < p { i } else { i - 1 };
                            assert(f[a] == y);
                        }
                    }
                    assert(f.to_set() =~= q.to_set().remove(x));
                }
                self.items = es;
            },
            None => {
                assert(before@.remove(x) =~= before@);
            },
        }
    }

    /// Puts the pair into the set.
    pub fn insert(&mut self, name: String, id: String)
        ensures
            final(self)@ == old(self)@.insert((name@, id@)),
    {
        let ghost first = self@;
        let ghost x = (name@, id@);
        self.remove(name.as_str(), id.as_str());
        proof {
            use_type_invariant(&*self);
        }
        let ghost before = *self;
        let p = self.rank(name.as_str(), id.as_str());
        let mut es: Vec<(String, String)> = Vec::new();
        std::mem::swap(&mut es, &mut self.items);
        es.insert(p, (name, id));
        proof {
            let q = before.listed();
            let after = NameSet { items: es };
            let f = after.listed();
            assert(f =~= q.insert(p as int, x));
            assert forall|i: int, j: int| 0 <= i < j < f.len() implies pair_lt(
                #[trigger] f[i],
                #[trigger] f[j],
            ) by {
                if i != p && j != p {
                    let a = if i < p { i } else { i - 1 };
                    let b = if j < p { j } else { j - 1 };
                    assert(pair_lt(q[a], q[b]));
                } else if j == p {
                    assert(pair_lt(q[i], x));
                } else {
                    assert(!pair_lt(q[j - 1], x));
                    assert(before@.contains(q[j - 1]));
                    lemma_pair_lt_total(q[j - 1], x);
                }
            }
            assert forall|y: (Seq<char>, Seq<char>)|
                f.to_set().contains(y) == first.insert(x).contains(y) by {
                if f.to_set().contains(y) {
                    let i = choose|i: int| 0 <= i < f.len() && f[i] == y;
                    if i != p {
                        let a = if i < p { i } else { i - 1 };
                        assert(q[a] == y);
                        assert(before@.contains(y));
                    }
                }
                if first.contains(y) && y != x {
                    assert(before@.contains(y));
                    let i = choose|i: int| 0 <= i < q.len() && q[i] == y;
                    let a = if i < p { i } else { i + 1 };
                    assert(f[a] == y);
                }
                if y == x {
                    assert(f[p as int] == y);
                }
            }
            assert(f.to_set() =~= first.insert(x));
        }
        self.items = es;
    }
}

impl Duplicate for NameSet {
    fn duplicate(&self) -> (r: Self) {
        proof {
            use_type_invariant(self);
        }
        let mut es: Vec<(String, String)> = Vec::new();
        for i in 0..self.items.len()
            invariant
                es@.len() == i,
                forall|j: int|
                    0 <= j < i ==> (#[trigger] es@[j]).0@ == self.items@[j].0@ && es@[j].1@
                        == self.items@[j].1@,
        {
            es.push((self.items[i].0.clone(), self.items[i].1.clone()));
        }
        assert(NameSet { items: es }.listed() =~= self.listed());
        NameSet { items: es }
    }
}

} // verus!
