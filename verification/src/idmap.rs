//! Ordered map from endpoint ids to values.

use vstd::prelude::*;

use crate::text::{rank, Rank};

verus! {

/// A map keyed by strings, walked in the order of its keys.
pub struct IdMap<V> {
    keys: Vec<String>,
    values: Vec<V>,
}

/// Keys in strictly increasing order: sorted, and none twice.
pub open spec fn strictly_sorted(keys: Seq<Seq<char>>) -> bool {
    forall|i: int, j: int| 0 <= i < j < keys.len() ==> crate::text::precedes(#[trigger] keys[i], #[trigger] keys[j])
}

/// A strictly sorted sequence is determined by what it contains.
pub(crate) proof fn lemma_sorted_is_unique(a: Seq<Seq<char>>, b: Seq<Seq<char>>)
    requires
        strictly_sorted(a),
        strictly_sorted(b),
        forall|k: Seq<char>| a.contains(k) == b.contains(k),
    ensures
        a == b,
    decreases a.len(),
{
    if a.len() == 0 {
        if b.len() > 0 {
            assert(b.contains(b[0]));
        }
        assert(a =~= b);
    } else {
        assert(a.contains(a[0]));
        assert(b.contains(a[0]));
        let j = choose|j: int| 0 <= j < b.len() && b[j] == a[0];
        assert(b.contains(b[0]));
        assert(a.contains(b[0]));
        let i = choose|i: int| 0 <= i < a.len() && a[i] == b[0];
        if i > 0 && j > 0 {
            assert(crate::text::precedes(a[0], a[i]));
            assert(crate::text::precedes(b[0], b[j]));
            crate::text::lemma_precedes_asymmetric(a[0], b[0]);
        }
        assert(a[0] == b[0]);
        let ta = a.drop_first();
        let tb = b.drop_first();
        assert forall|k: Seq<char>| ta.contains(k) == tb.contains(k) by {
            if ta.contains(k) {
                let n = choose|n: int| 0 <= n < ta.len() && ta[n] == k;
                assert(a[n + 1] == k);
                assert(a.contains(k));
                assert(crate::text::precedes(a[0], a[n + 1]));
                crate::text::lemma_precedes_asymmetric(a[0], k);
                let m = choose|m: int| 0 <= m < b.len() && b[m] == k;
                assert(tb[m - 1] == k);
            }
            if tb.contains(k) {
                let n = choose|n: int| 0 <= n < tb.len() && tb[n] == k;
                assert(b[n + 1] == k);
                assert(b.contains(k));
                assert(crate::text::precedes(b[0], b[n + 1]));
                crate::text::lemma_precedes_asymmetric(b[0], k);
                let m = choose|m: int| 0 <= m < a.len() && a[m] == k;
                assert(ta[m - 1] == k);
            }
        }
        lemma_sorted_is_unique(ta, tb);
        assert(a =~= seq![a[0]] + ta);
        assert(b =~= seq![b[0]] + tb);
    }
}

/// Whether a sequence lists a set of keys in order.
pub open spec fn lists(keys: Seq<Seq<char>>, set: Set<Seq<char>>) -> bool {
    &&& strictly_sorted(keys)
    &&& forall|k: Seq<char>| #[trigger] keys.contains(k) == set.contains(k)
}

/// A set of keys in order.
pub open spec fn in_order(set: Set<Seq<char>>) -> Seq<Seq<char>> {
    choose|keys: Seq<Seq<char>>| lists(keys, set)
}

/// A sequence that lists a set in order is that set in order.
pub(crate) proof fn lemma_in_order(keys: Seq<Seq<char>>, set: Set<Seq<char>>)
    requires
        lists(keys, set),
    ensures
        keys == in_order(set),
{
    lemma_sorted_is_unique(keys, in_order(set));
}

proof fn lemma_insert_sorted(keys: Seq<Seq<char>>, key: Seq<char>) -> (r: Seq<Seq<char>>)
    requires
        strictly_sorted(keys),
    ensures
        strictly_sorted(r),
        forall|k: Seq<char>| #[trigger] r.contains(k) == (keys.contains(k) || k == key),
    decreases keys.len(),
{
    if keys.len() == 0 {
        let r = seq![key];
        assert(r[0] == key);
        r
    } else {
        let last = keys.last();
        let front = keys.drop_last();
        crate::text::lemma_precedes_total(last, key);
        if last == key {
            assert(keys[keys.len() - 1] == key);
            keys
        } else if crate::text::precedes(last, key) {
            let r = keys.push(key);
            assert forall|i: int, j: int| 0 <= i < j < r.len() implies crate::text::precedes(
                #[trigger] r[i],
                #[trigger] r[j],
            ) by {
                if j == keys.len() && i < keys.len() - 1 {
                    assert(crate::text::precedes(keys[i], keys[keys.len() - 1]));
                    crate::text::lemma_precedes_transitive(keys[i], last, key);
                }
            }
            assert forall|k: Seq<char>| #[trigger] r.contains(k) == (keys.contains(k) || k == key) by {
                if keys.contains(k) {
                    let i = keys.index_of(k);
                    assert(r[i] == k);
                }
                if k == key {
                    assert(r[keys.len() as int] == k);
                }
                if r.contains(k) && k != key {
                    let i = r.index_of(k);
                    assert(keys[i] == k);
                }
            }
            r
        } else {
            let f = lemma_insert_sorted(front, key);
            let r = f.push(last);
            assert forall|i: int, j: int| 0 <= i < j < r.len() implies crate::text::precedes(
                #[trigger] r[i],
                #[trigger] r[j],
            ) by {
                if j == f.len() {
                    assert(f.contains(f[i]));
                    if f[i] != key {
                        let x = front.index_of(f[i]);
                        assert(crate::text::precedes(keys[x], keys[keys.len() - 1]));
                    }
                }
            }
            assert forall|k: Seq<char>| #[trigger] r.contains(k) == (keys.contains(k) || k == key) by {
                if r.contains(k) {
                    let i = r.index_of(k);
                    if i < f.len() {
                        assert(f[i] == k);
                        assert(f.contains(k));
                        if k != key {
                            let x = front.index_of(k);
                            assert(keys[x] == k);
                        }
                    } else {
                        assert(keys[keys.len() - 1] == k);
                    }
                }
                if keys.contains(k) {
                    let i = keys.index_of(k);
                    if i < front.len() {
                        assert(front[i] == k);
                        assert(f.contains(k));
                        let x = f.index_of(k);
                        assert(r[x] == k);
                    } else {
                        assert(r[f.len() as int] == k);
                    }
                }
                if k == key {
                    assert(f.contains(k));
                    let x = f.index_of(k);
                    assert(r[x] == k);
                }
            }
            r
        }
    }
}

proof fn lemma_listing(set: Set<Seq<char>>) -> (r: Seq<Seq<char>>)
    requires
        set.finite(),
    ensures
        lists(r, set),
    decreases set.len(),
{
    if set.len() == 0 {
        let r = Seq::<Seq<char>>::empty();
        assert(set =~= Set::empty());
        r
    } else {
        let k = set.choose();
        let rest = lemma_listing(set.remove(k));
        let r = lemma_insert_sorted(rest, k);
        assert forall|j: Seq<char>| #[trigger] r.contains(j) == set.contains(j) by {
            assert(rest.contains(j) == set.remove(k).contains(j));
        }
        r
    }
}

/// A finite set of keys can be put in order.
pub(crate) proof fn lemma_finite_in_order(set: Set<Seq<char>>)
    requires
        set.finite(),
    ensures
        lists(in_order(set), set),
{
    let r = lemma_listing(set);
    assert(lists(r, set));
}

impl<V> IdMap<V> {
    /// The keys, in order.
    pub closed spec fn ids(&self) -> Seq<Seq<char>> {
        Seq::new(self.keys@.len(), |i: int| self.keys@[i]@)
    }

    /// The values, in the order of their keys.
    pub closed spec fn vals(&self) -> Seq<V> {
        self.values@
    }

    /// One value per key, and the keys strictly sorted.
    pub open spec fn wf(&self) -> bool {
        &&& self.ids().len() == self.vals().len()
        &&& strictly_sorted(self.ids())
    }

    /// Whether `id` is a key.
    pub open spec fn has(&self, id: Seq<char>) -> bool {
        self@.dom().contains(id)
    }

    proof fn lemma_at(&self, i: int)
        requires
            self.wf(),
            0 <= i < self.ids().len(),
        ensures
            self.ids().contains(self.ids()[i]),
            self.ids().index_of(self.ids()[i]) == i,
    {
        let k = self.ids()[i];
        assert(self.ids().contains(k));
        let j = self.ids().index_of(k);
        assert(0 <= j < self.ids().len() && self.ids()[j] == k);
        crate::text::lemma_precedes_irreflexive(k);
        if i < j {
            assert(crate::text::precedes(self.ids()[i], self.ids()[j]));
        }
        if j < i {
            assert(crate::text::precedes(self.ids()[j], self.ids()[i]));
        }
    }

    /// What the map holds at a position.
    pub(crate) proof fn lemma_position(&self, i: int)
        requires
            self.wf(),
            0 <= i < self.ids().len(),
        ensures
            self.has(self.ids()[i]),
            self@[self.ids()[i]] == self.vals()[i],
    {
        self.lemma_at(i);
    }

    /// Every key has a position.
    pub(crate) proof fn lemma_has_position(&self, id: Seq<char>) -> (i: int)
        requires
            self.wf(),
            self.has(id),
        ensures
            0 <= i < self.ids().len(),
            self.ids()[i] == id,
            self@[id] == self.vals()[i],
    {
        let i = self.ids().index_of(id);
        i
    }

    /// An empty map.
    pub fn new() -> (r: Self)
        ensures
            r.wf(),
            r@ == Map::<Seq<char>, V>::empty(),
            r.ids() == Seq::<Seq<char>>::empty(),
    {
        let r = IdMap { keys: Vec::new(), values: Vec::new() };
        assert(r.ids() =~= Seq::empty());
        assert(r@ =~= Map::empty());
        r
    }

    /// Number of keys.
    pub fn len(&self) -> (r: usize)
        requires
            self.wf(),
        ensures
            r == self.ids().len(),
    {
        self.keys.len()
    }

    /// Where `id` is, or where it would have to be inserted.
    fn locate(&self, id: &str) -> (r: (usize, bool))
        requires
            self.wf(),
        ensures
            r.0 <= self.ids().len(),
            r.1 == self.has(id@),
            r.1 ==> r.0 < self.ids().len() && self.ids()[r.0 as int] == id@ && self@[id@] == self.vals()[r.0 as int],
            forall|j: int| 0 <= j < r.0 ==> crate::text::precedes(#[trigger] self.ids()[j], id@),
            !r.1 ==> forall|j: int| r.0 <= j < self.ids().len() ==> crate::text::precedes(id@, #[trigger] self.ids()[j]),
    {
        let mut i: usize = 0;
        while i < self.keys.len()
            invariant
                self.wf(),
                i <= self.keys@.len(),
                forall|j: int| 0 <= j < i ==> crate::text::precedes(#[trigger] self.ids()[j], id@),
            decreases self.keys@.len() - i,
        {
            assert(self.ids()[i as int] == self.keys@[i as int]@);
            match rank(self.keys[i].as_str(), id) {
                Rank::Before => {
                    i = i + 1;
                },
                Rank::Same => {
                    proof {
                        self.lemma_at(i as int);
                    }
                    return (i, true);
                },
                Rank::After => {
                    proof {
                        assert forall|j: int| i <= j < self.ids().len() implies crate::text::precedes(
                            id@,
                            #[trigger] self.ids()[j],
                        ) by {
                            if i < j {
                                assert(crate::text::precedes(self.ids()[i as int], self.ids()[j]));
                                crate::text::lemma_precedes_transitive(id@, self.ids()[i as int], self.ids()[j]);
                            }
                        }
                        self.lemma_absent(id@, i as int);
                    }
                    return (i, false);
                },
            }
        }
        proof {
            self.lemma_absent(id@, i as int);
        }
        (i, false)
    }

    proof fn lemma_absent(&self, id: Seq<char>, at: int)
        requires
            self.wf(),
            0 <= at <= self.ids().len(),
            forall|j: int| 0 <= j < at ==> crate::text::precedes(#[trigger] self.ids()[j], id),
            forall|j: int| at <= j < self.ids().len() ==> crate::text::precedes(id, #[trigger] self.ids()[j]),
        ensures
            !self.ids().contains(id),
    {
        crate::text::lemma_precedes_irreflexive(id);
    }

    /// Whether `id` is a key.
    pub fn contains(&self, id: &str) -> (r: bool)
        requires
            self.wf(),
        ensures
            r == self.has(id@),
    {
        self.locate(id).1
    }

    /// The value under `id`.
    pub fn get(&self, id: &str) -> (r: Option<&V>)
        requires
            self.wf(),
        ensures
            r is Some == self.has(id@),
            r matches Some(v) ==> *v == self@[id@],
    {
        let (at, found) = self.locate(id);
        if found {
            Some(&self.values[at])
        } else {
            None
        }
    }

    /// The key at a position.
    pub fn key_at(&self, i: usize) -> (r: &String)
        requires
            self.wf(),
            i < self.ids().len(),
        ensures
            r@ == self.ids()[i as int],
            self.has(r@),
            self@[r@] == self.vals()[i as int],
            i < usize::MAX,
    {
        proof {
            self.lemma_at(i as int);
            assert(i < self.keys.len());
        }
        &self.keys[i]
    }

    /// The value at a position.
    pub fn value_at(&self, i: usize) -> (r: &V)
        requires
            self.wf(),
            i < self.ids().len(),
        ensures
            *r == self.vals()[i as int],
            self.has(self.ids()[i as int]),
            *r == self@[self.ids()[i as int]],
    {
        proof {
            self.lemma_at(i as int);
        }
        &self.values[i]
    }

    /// The position of `id`.
    pub fn position(&self, id: &str) -> (r: Option<usize>)
        requires
            self.wf(),
        ensures
            r is Some == self.has(id@),
            r matches Some(i) ==> i < self.ids().len() && self.ids()[i as int] == id@ && self.vals()[i as int]
                == self@[id@],
    {
        let (at, found) = self.locate(id);
        if found {
            Some(at)
        } else {
            None
        }
    }

    /// The value at a position, to be changed in place.
    pub fn value_at_mut(&mut self, i: usize) -> (r: &mut V)
        requires
            old(self).wf(),
            i < old(self).ids().len(),
        ensures
            *r == old(self).vals()[i as int],
            *r == old(self)@[old(self).ids()[i as int]],
            final(self).wf(),
            final(self).ids() == old(self).ids(),
            final(self).vals() == old(self).vals().update(i as int, *final(r)),
            final(self)@ == old(self)@.insert(old(self).ids()[i as int], *final(r)),
    {
        proof {
            self.lemma_at(i as int);
            lemma_update(*self, i as int);
        }
        &mut self.values[i]
    }

    /// Put `value` under `id`, replacing what was there.
    pub fn insert(&mut self, id: String, value: V)
        requires
            old(self).wf(),
        ensures
            final(self).wf(),
            final(self)@ == old(self)@.insert(id@, value),
            final(self).ids().len() <= old(self).ids().len() + 1,
            old(self).has(id@) ==> final(self).ids() == old(self).ids(),
    {
        let (at, found) = self.locate(id.as_str());
        let ghost before = *self;
        let ghost k = id@;
        if found {
            self.values.set(at, value);
            proof {
                assert(self.ids() =~= before.ids());
                assert forall|j: Seq<char>| self@.dom().contains(j) == before@.insert(k, value).dom().contains(j) by {}
                assert forall|j: Seq<char>| #[trigger] self@.dom().contains(j) implies self@[j] == before@.insert(
                    k,
                    value,
                )[j] by {
                    let n = self.ids().index_of(j);
                    before.lemma_at(at as int);
                    if n == at {
                        assert(j == k);
                    }
                }
                assert(self@ =~= before@.insert(k, value));
            }
        } else {
            self.keys.insert(at, id);
            self.values.insert(at, value);
            proof {
                assert(self.ids() =~= before.ids().insert(at as int, k));
                let n = self.ids();
                let o = before.ids();
                assert forall|i: int, j: int| 0 <= i < j < n.len() implies crate::text::precedes(
                    #[trigger] n[i],
                    #[trigger] n[j],
                ) by {
                    let oi = if i < at { i } else { i - 1 };
                    let oj = if j < at { j } else { j - 1 };
                    if i == at {
                        assert(n[j] == o[oj]);
                    } else if j == at {
                        assert(n[i] == o[oi]);
                    } else {
                        assert(n[i] == o[oi]);
                        assert(n[j] == o[oj]);
                        assert(crate::text::precedes(o[oi], o[oj]));
                    }
                }
                assert(self.wf());
                assert(n[at as int] == k);
                assert forall|j: Seq<char>| n.contains(j) == (o.contains(j) || j == k) by {
                    if o.contains(j) {
                        let m = o.index_of(j);
                        let nm = if m < at { m } else { m + 1 };
                        assert(n[nm] == j);
                    }
                    if n.contains(j) && j != k {
                        let m = n.index_of(j);
                        let om = if m < at { m } else { m - 1 };
                        assert(o[om] == j);
                    }
                    if j == k {
                        assert(n.contains(k));
                    }
                }
                assert forall|j: Seq<char>| #[trigger] self@.dom().contains(j) implies self@[j] == before@.insert(
                    k,
                    value,
                )[j] by {
                    let m = n.index_of(j);
                    self.lemma_at(at as int);
                    if m < at {
                        before.lemma_at(m);
                        assert(o[m] == j);
                    } else if m > at {
                        before.lemma_at(m - 1);
                        assert(o[m - 1] == j);
                    }
                }
                assert(self@ =~= before@.insert(k, value));
            }
        }
    }

    /// Take the value under `id` out of the map.
    pub fn remove(&mut self, id: &str) -> (r: Option<V>)
        requires
            old(self).wf(),
        ensures
            final(self).wf(),
            final(self)@ == old(self)@.remove(id@),
            final(self).ids().len() <= old(self).ids().len(),
            old(self).has(id@) ==> final(self).ids().len() < old(self).ids().len(),
            r is Some == old(self).has(id@),
            r matches Some(v) ==> v == old(self)@[id@],
    {
        let (at, found) = self.locate(id);
        let ghost before = *self;
        let ghost k = id@;
        if found {
            let _ = self.keys.remove(at);
            let value = self.values.remove(at);
            proof {
                assert(self.ids() =~= before.ids().remove(at as int));
                let n = self.ids();
                let o = before.ids();
                assert forall|i: int, j: int| 0 <= i < j < n.len() implies crate::text::precedes(
                    #[trigger] n[i],
                    #[trigger] n[j],
                ) by {
                    let oi = if i < at { i } else { i + 1 };
                    let oj = if j < at { j } else { j + 1 };
                    assert(n[i] == o[oi]);
                    assert(n[j] == o[oj]);
                    assert(crate::text::precedes(o[oi], o[oj]));
                }
                assert(self.wf());
                before.lemma_at(at as int);
                assert forall|j: Seq<char>| n.contains(j) == (o.contains(j) && j != k) by {
                    if n.contains(j) {
                        let m = n.index_of(j);
                        let om = if m < at { m } else { m + 1 };
                        assert(o[om] == j);
                        before.lemma_at(om);
                    }
                    if o.contains(j) && j != k {
                        let m = o.index_of(j);
                        let nm = if m < at { m } else { m - 1 };
                        assert(n[nm] == j);
                    }
                }
                assert forall|j: Seq<char>| #[trigger] self@.dom().contains(j) implies self@[j] == before@.remove(k)[j] by {
                    let m = n.index_of(j);
                    let om = if m < at { m } else { m + 1 };
                    assert(o[om] == j);
                    before.lemma_at(om);
                }
                assert(self@ =~= before@.remove(k));
            }
            Some(value)
        } else {
            assert(self@ =~= before@.remove(k));
            None
        }
    }
}

impl<V> View for IdMap<V> {
    type V = Map<Seq<char>, V>;

    /// The contents, without the order.
    open spec fn view(&self) -> Map<Seq<char>, V> {
        Map::new(|k: Seq<char>| self.ids().contains(k), |k: Seq<char>| self.vals()[self.ids().index_of(k)])
    }
}

/// What changing the value at a position does to the contents.
proof fn lemma_update<V>(m: IdMap<V>, i: int)
    requires
        m.wf(),
        0 <= i < m.ids().len(),
    ensures
        forall|n: IdMap<V>|
            #![trigger n.vals()]
            n.keys == m.keys && n.vals() == m.vals().update(i, n.vals()[i]) ==> {
                &&& n.wf()
                &&& n.ids() == m.ids()
                &&& n@ == m@.insert(m.ids()[i], n.vals()[i])
            },
{
    assert forall|n: IdMap<V>|
        #![trigger n.vals()]
        n.keys == m.keys && n.vals() == m.vals().update(i, n.vals()[i]) implies {
        &&& n.wf()
        &&& n.ids() == m.ids()
        &&& n@ == m@.insert(m.ids()[i], n.vals()[i])
    } by {
        assert(n.ids() =~= m.ids());
        m.lemma_at(i);
        assert forall|k: Seq<char>| #[trigger] n@.dom().contains(k) implies n@[k] == m@.insert(
            m.ids()[i],
            n.vals()[i],
        )[k] by {
            let p = n.ids().index_of(k);
            assert(n.ids()[p] == k);
        }
        assert(n@ =~= m@.insert(m.ids()[i], n.vals()[i]));
    }
}

/// The order in which a map is walked depends on its keys alone.
pub proof fn law_order_follows_contents<V>(m: IdMap<V>)
    requires
        m.wf(),
    ensures
        m.ids() == in_order(m@.dom()),
{
    assert forall|k: Seq<char>| #[trigger] m.ids().contains(k) == m@.dom().contains(k) by {}
    lemma_in_order(m.ids(), m@.dom());
}

} // verus!
