//! Typed, dense per-component-kind containers keyed by entity identity.
//!
//! A `Storage<K>` keeps `(Entity, K)` entries in insertion order. Inserting
//! for an entity that already holds a `K` replaces the value in place, so an
//! entity never holds two instances of one kind. The join over two storages
//! lists, in the first storage's insertion order, exactly the entities
//! present in both.

use vstd::prelude::*;
use crate::components::Entity;

verus! {

/// An entry for `e` exists in `s`.
pub open spec fn has_key<K>(s: Seq<(Entity, K)>, e: Entity) -> bool {
    exists|i: int| 0 <= i < s.len() && (#[trigger] s[i]).0 == e
}

/// The index of the entry for `e`; meaningful only when `has_key(s, e)`.
pub open spec fn key_index<K>(s: Seq<(Entity, K)>, e: Entity) -> int {
    choose|i: int| 0 <= i < s.len() && (#[trigger] s[i]).0 == e
}

/// The component value stored for `e`; meaningful only when `has_key(s, e)`.
pub open spec fn value_of<K>(s: Seq<(Entity, K)>, e: Entity) -> K {
    s[key_index(s, e)].1
}

/// No two entries share one entity: the at-most-one-component-per-kind
/// invariant of every storage.
pub open spec fn distinct_keys<K>(s: Seq<(Entity, K)>) -> bool {
    forall|i: int, j: int|
        0 <= i < s.len() && 0 <= j < s.len() && i != j ==> (#[trigger] s[i]).0 != (#[trigger] s[j]).0
}

/// The entries after `insert(e, v)`: replace in place when `e` is present,
/// append otherwise.
pub open spec fn inserted<K>(s: Seq<(Entity, K)>, e: Entity, v: K) -> Seq<(Entity, K)> {
    if has_key(s, e) {
        s.update(key_index(s, e), (e, v))
    } else {
        s.push((e, v))
    }
}

/// The entries after `remove(e)`: drop the entry for `e` when present,
/// unchanged otherwise.
pub open spec fn removed<K>(s: Seq<(Entity, K)>, e: Entity) -> Seq<(Entity, K)> {
    if has_key(s, e) {
        s.remove(key_index(s, e))
    } else {
        s
    }
}

/// The entities holding both component kinds, in `a`'s insertion order.
pub open spec fn join_keys<A, B>(a: Seq<(Entity, A)>, b: Seq<(Entity, B)>) -> Seq<Entity>
    decreases a.len(),
{
    if a.len() == 0 {
        Seq::empty()
    } else {
        let rest = join_keys(a.drop_last(), b);
        if has_key(b, a.last().0) {
            rest.push(a.last().0)
        } else {
            rest
        }
    }
}

/// With distinct keys, any entry matching `e` sits at `key_index`.
pub proof fn lemma_key_index_unique<K>(s: Seq<(Entity, K)>, e: Entity, i: int)
    requires
        distinct_keys(s),
        0 <= i < s.len(),
        s[i].0 == e,
    ensures
        has_key(s, e),
        key_index(s, e) == i,
{
    assert(has_key(s, e));
    let j = key_index(s, e);
    assert(0 <= j < s.len() && s[j].0 == e);
    if i != j {
        assert(s[i].0 != s[j].0);
    }
}

/// How `inserted` changes membership, values, length, and distinctness:
/// the value for `e` becomes `v`, every other entity's membership and value
/// stand unchanged, and no second entry for `e` ever appears.
pub proof fn lemma_inserted<K>(s: Seq<(Entity, K)>, e: Entity, v: K)
    requires
        distinct_keys(s),
    ensures
        distinct_keys(inserted(s, e, v)),
        has_key(inserted(s, e, v), e),
        value_of(inserted(s, e, v), e) == v,
        forall|x: Entity| x != e ==> #[trigger] has_key(inserted(s, e, v), x) == has_key(s, x),
        forall|x: Entity| x != e && has_key(s, x) ==>
            #[trigger] value_of(inserted(s, e, v), x) == value_of(s, x),
        inserted(s, e, v).len() == if has_key(s, e) { s.len() } else { s.len() + 1 },
{
    let t = inserted(s, e, v);
    if has_key(s, e) {
        let k = key_index(s, e);
        assert(0 <= k < s.len() && s[k].0 == e);
        assert(forall|i: int| 0 <= i < t.len() && i != k ==> t[i] == s[i]);
        assert(t[k] == (e, v));
        lemma_key_index_unique(t, e, k);
        assert forall|x: Entity| x != e implies #[trigger] has_key(t, x) == has_key(s, x) by {
            if has_key(t, x) {
                let i = choose|i: int| 0 <= i < t.len() && (#[trigger] t[i]).0 == x;
                assert(i != k);
                assert(s[i].0 == x);
            }
            if has_key(s, x) {
                let i = choose|i: int| 0 <= i < s.len() && (#[trigger] s[i]).0 == x;
                assert(i != k);
                assert(t[i].0 == x);
            }
        }
        assert forall|x: Entity| x != e && has_key(s, x) implies
            #[trigger] value_of(t, x) == value_of(s, x) by {
            let i = choose|i: int| 0 <= i < s.len() && (#[trigger] s[i]).0 == x;
            lemma_key_index_unique(s, x, i);
            assert(t[i].0 == x);
            lemma_key_index_unique(t, x, i);
        }
    } else {
        assert(t == s.push((e, v)));
        assert(t[s.len() as int] == (e, v));
        assert(forall|i: int| 0 <= i < s.len() ==> t[i] == s[i]);
        assert(distinct_keys(t)) by {
            assert forall|i: int, j: int|
                0 <= i < t.len() && 0 <= j < t.len() && i != j implies
                (#[trigger] t[i]).0 != (#[trigger] t[j]).0 by {
                if i < s.len() && j < s.len() {
                    assert(s[i].0 != s[j].0);
                } else if i == s.len() {
                    assert(t[j].0 != e);
                } else if j == s.len() {
                    assert(t[i].0 != e);
                }
            }
        }
        lemma_key_index_unique(t, e, s.len() as int);
        assert forall|x: Entity| x != e implies #[trigger] has_key(t, x) == has_key(s, x) by {
            if has_key(t, x) {
                let i = choose|i: int| 0 <= i < t.len() && (#[trigger] t[i]).0 == x;
                assert(i != s.len());
                assert(s[i].0 == x);
            }
            if has_key(s, x) {
                let i = choose|i: int| 0 <= i < s.len() && (#[trigger] s[i]).0 == x;
                assert(t[i].0 == x);
            }
        }
        assert forall|x: Entity| x != e && has_key(s, x) implies
            #[trigger] value_of(t, x) == value_of(s, x) by {
            let i = choose|i: int| 0 <= i < s.len() && (#[trigger] s[i]).0 == x;
            lemma_key_index_unique(s, x, i);
            assert(t[i].0 == x);
            lemma_key_index_unique(t, x, i);
        }
    }
}

/// How `removed` changes membership, values, length, and distinctness:
/// the entry for `e` is gone, every other entity's membership and value
/// stand unchanged.
pub proof fn lemma_removed<K>(s: Seq<(Entity, K)>, e: Entity)
    requires
        distinct_keys(s),
    ensures
        distinct_keys(removed(s, e)),
        !has_key(removed(s, e), e),
        forall|x: Entity| x != e ==> #[trigger] has_key(removed(s, e), x) == has_key(s, x),
        forall|x: Entity| x != e && has_key(s, x) ==>
            #[trigger] value_of(removed(s, e), x) == value_of(s, x),
        removed(s, e).len() == if has_key(s, e) { s.len() - 1 } else { s.len() as int },
{
    let t = removed(s, e);
    if has_key(s, e) {
        let k = key_index(s, e);
        assert(0 <= k < s.len() && s[k].0 == e);
        assert(forall|i: int| 0 <= i < k ==> t[i] == s[i]);
        assert(forall|i: int| k <= i < t.len() ==> t[i] == s[i + 1]);
        assert(distinct_keys(t)) by {
            assert forall|i: int, j: int|
                0 <= i < t.len() && 0 <= j < t.len() && i != j implies
                (#[trigger] t[i]).0 != (#[trigger] t[j]).0 by {
                let si: int = if i < k { i } else { i + 1 };
                let sj: int = if j < k { j } else { j + 1 };
                assert(t[i] == s[si] && t[j] == s[sj]);
                assert(s[si].0 != s[sj].0);
            }
        }
        assert(!has_key(t, e)) by {
            if has_key(t, e) {
                let i = choose|i: int| 0 <= i < t.len() && (#[trigger] t[i]).0 == e;
                let si: int = if i < k { i } else { i + 1 };
                assert(s[si].0 == e && si != k);
                assert(s[si].0 != s[k].0);
            }
        }
        assert forall|x: Entity| x != e implies #[trigger] has_key(t, x) == has_key(s, x) by {
            if has_key(t, x) {
                let i = choose|i: int| 0 <= i < t.len() && (#[trigger] t[i]).0 == x;
                let si: int = if i < k { i } else { i + 1 };
                assert(s[si].0 == x);
            }
            if has_key(s, x) {
                let i = choose|i: int| 0 <= i < s.len() && (#[trigger] s[i]).0 == x;
                assert(i != k);
                let ti: int = if i < k { i } else { i - 1 };
                assert(t[ti].0 == x);
            }
        }
        assert forall|x: Entity| x != e && has_key(s, x) implies
            #[trigger] value_of(t, x) == value_of(s, x) by {
            let i = choose|i: int| 0 <= i < s.len() && (#[trigger] s[i]).0 == x;
            lemma_key_index_unique(s, x, i);
            assert(i != k);
            let ti: int = if i < k { i } else { i - 1 };
            assert(t[ti] == s[i]);
            lemma_key_index_unique(t, x, ti);
        }
    }
}

/// Membership after a removal implies membership before it: removal never
/// adds an entry, with or without distinct keys.
pub proof fn lemma_removed_subset<K>(s: Seq<(Entity, K)>, e: Entity, x: Entity)
    requires
        has_key(removed(s, e), x),
    ensures
        has_key(s, x),
{
    let t = removed(s, e);
    if has_key(s, e) {
        let k = key_index(s, e);
        let i = choose|i: int| 0 <= i < t.len() && (#[trigger] t[i]).0 == x;
        let si: int = if i < k { i } else { i + 1 };
        assert(s[si].0 == x);
    }
}

/// Join correctness: the join over two storages yields an entity exactly
/// when that entity holds both component kinds.
pub proof fn lemma_join_membership<A, B>(a: Seq<(Entity, A)>, b: Seq<(Entity, B)>, e: Entity)
    ensures
        join_keys(a, b).contains(e) <==> has_key(a, e) && has_key(b, e),
    decreases a.len(),
{
    if a.len() == 0 {
    } else {
        lemma_join_membership(a.drop_last(), b, e);
        let j = join_keys(a, b);
        let rest = join_keys(a.drop_last(), b);
        assert(forall|i: int| 0 <= i < a.len() - 1 ==> a.drop_last()[i] == a[i]);
        if has_key(b, a.last().0) {
            assert(j == rest.push(a.last().0));
            if j.contains(e) {
                let i = choose|i: int| 0 <= i < j.len() && j[i] == e;
                if i < rest.len() {
                    assert(rest[i] == e);
                    assert(rest.contains(e));
                } else {
                    assert(e == a.last().0);
                    assert(a[a.len() - 1].0 == e);
                }
                assert(has_key(a, e));
            }
            if has_key(a, e) && has_key(b, e) {
                if e == a.last().0 {
                    assert(j[j.len() - 1] == e);
                    assert(j.contains(e));
                } else {
                    let i = choose|i: int| 0 <= i < a.len() && (#[trigger] a[i]).0 == e;
                    assert(i < a.len() - 1);
                    assert(a.drop_last()[i].0 == e);
                    assert(has_key(a.drop_last(), e));
                    let ri = choose|ri: int| 0 <= ri < rest.len() && rest[ri] == e;
                    assert(j[ri] == e);
                    assert(j.contains(e));
                }
            }
        } else {
            assert(j == rest);
            if j.contains(e) {
                assert(has_key(a.drop_last(), e));
                let i = choose|i: int| 0 <= i < a.drop_last().len() && (#[trigger] a.drop_last()[i]).0 == e;
                assert(a[i].0 == e);
                assert(has_key(a, e));
                assert(e != a.last().0);
            }
            if has_key(a, e) && has_key(b, e) {
                assert(e != a.last().0);
                let i = choose|i: int| 0 <= i < a.len() && (#[trigger] a[i]).0 == e;
                assert(i < a.len() - 1);
                assert(a.drop_last()[i].0 == e);
            }
        }
    }
}

/// Join membership tracks storage changes: attaching or detaching either
/// component kind changes which entities the next join call yields, in
/// exactly the expected way. A join already materialised is a plain value
/// and is never altered retroactively.
pub proof fn lemma_join_after_change<A, B>(a: Seq<(Entity, A)>, b: Seq<(Entity, B)>, e: Entity, va: A, vb: B, x: Entity)
    requires
        distinct_keys(a),
        distinct_keys(b),
    ensures
        join_keys(inserted(a, e, va), b).contains(x)
            <==> (x == e || has_key(a, x)) && has_key(b, x),
        join_keys(removed(a, e), b).contains(x)
            <==> x != e && has_key(a, x) && has_key(b, x),
        join_keys(a, inserted(b, e, vb)).contains(x)
            <==> has_key(a, x) && (x == e || has_key(b, x)),
        join_keys(a, removed(b, e)).contains(x)
            <==> has_key(a, x) && x != e && has_key(b, x),
{
    lemma_inserted(a, e, va);
    lemma_inserted(b, e, vb);
    lemma_removed(a, e);
    lemma_removed(b, e);
    lemma_join_membership(inserted(a, e, va), b, x);
    lemma_join_membership(removed(a, e), b, x);
    lemma_join_membership(a, inserted(b, e, vb), x);
    lemma_join_membership(a, removed(b, e), x);
}

/// Component cardinality: inserting a component of one kind twice for one
/// entity replaces the prior value and never produces a second entry — the
/// storage's length and distinctness stand, and the entity's value is the
/// later one.
pub proof fn lemma_component_cardinality<K>(s: Seq<(Entity, K)>, e: Entity, v1: K, v2: K)
    requires
        distinct_keys(s),
    ensures
        distinct_keys(inserted(inserted(s, e, v1), e, v2)),
        inserted(inserted(s, e, v1), e, v2).len() == inserted(s, e, v1).len(),
        value_of(inserted(inserted(s, e, v1), e, v2), e) == v2,
        forall|x: Entity| #[trigger] has_key(inserted(inserted(s, e, v1), e, v2), x)
            <==> x == e || has_key(s, x),
{
    lemma_inserted(s, e, v1);
    lemma_inserted(inserted(s, e, v1), e, v2);
}

/// A dense container of `(Entity, K)` entries in insertion order, at most
/// one entry per entity.
pub struct Storage<K> {
    pub entries: Vec<(Entity, K)>,
}

impl<K> View for Storage<K> {
    type V = Seq<(Entity, K)>;

    open spec fn view(&self) -> Seq<(Entity, K)> {
        self.entries@
    }
}

impl<K: Copy> Storage<K> {
    /// An empty storage.
    pub fn new() -> (s: Self)
        ensures
            s@ == Seq::<(Entity, K)>::empty(),
            distinct_keys(s@),
    {
        let s = Storage { entries: Vec::new() };
        proof {
            assert(s@ =~= Seq::<(Entity, K)>::empty());
        }
        s
    }

    /// Number of entries.
    pub fn len(&self) -> (n: usize)
        ensures
            n == self@.len(),
    {
        self.entries.len()
    }

    /// The entry at a storage index, in insertion order.
    pub fn entry_at(&self, i: usize) -> (r: (Entity, K))
        requires
            i < self@.len(),
        ensures
            r == self@[i as int],
    {
        self.entries[i]
    }

    /// Replace the component value at a storage index, keeping the entity.
    pub fn set_value_at(&mut self, i: usize, v: K)
        requires
            i < old(self)@.len(),
        ensures
            final(self)@ == old(self)@.update(i as int, (old(self)@[i as int].0, v)),
    {
        let e = self.entries[i].0;
        self.entries[i] = (e, v);
    }

    /// Whether the entity holds this component kind.
    pub fn contains(&self, e: Entity) -> (r: bool)
        ensures
            r == has_key(self@, e),
    {
        let n = self.entries.len();
        let mut i: usize = 0;
        while i < n
            invariant
                n == self@.len(),
                i <= n,
                forall|j: int| 0 <= j < i ==> (#[trigger] self@[j]).0 != e,
            decreases n - i,
        {
            if self.entries[i].0 == e {
                return true;
            }
            i = i + 1;
        }
        false
    }

    /// Read the entity's component, if it holds one.
    pub fn get(&self, e: Entity) -> (r: Option<K>)
        requires
            distinct_keys(self@),
        ensures
            match r {
                Some(v) => has_key(self@, e) && v == value_of(self@, e),
                None => !has_key(self@, e),
            },
    {
        let n = self.entries.len();
        let mut i: usize = 0;
        while i < n
            invariant
                distinct_keys(self@),
                n == self@.len(),
                i <= n,
                forall|j: int| 0 <= j < i ==> (#[trigger] self@[j]).0 != e,
            decreases n - i,
        {
            if self.entries[i].0 == e {
                proof {
                    lemma_key_index_unique(self@, e, i as int);
                }
                return Some(self.entries[i].1);
            }
            i = i + 1;
        }
        None
    }

    /// Attach the component to the entity, replacing any prior value of the
    /// same kind: an entity never holds two instances of one kind.
    pub fn insert(&mut self, e: Entity, v: K)
        requires
            distinct_keys(old(self)@),
        ensures
            final(self)@ == inserted(old(self)@, e, v),
            distinct_keys(final(self)@),
    {
        proof {
            lemma_inserted(old(self)@, e, v);
        }
        let n = self.entries.len();
        let mut i: usize = 0;
        while i < n
            invariant
                distinct_keys(self@),
                self@ == old(self)@,
                n == self@.len(),
                i <= n,
                forall|j: int| 0 <= j < i ==> (#[trigger] self@[j]).0 != e,
            decreases n - i,
        {
            if self.entries[i].0 == e {
                proof {
                    lemma_key_index_unique(self@, e, i as int);
                }
                self.entries[i] = (e, v);
                return ;
            }
            i = i + 1;
        }
        self.entries.push((e, v));
    }

    /// Detach the entity's component of this kind, if any.
    pub fn remove(&mut self, e: Entity)
        requires
            distinct_keys(old(self)@),
        ensures
            final(self)@ == removed(old(self)@, e),
            distinct_keys(final(self)@),
    {
        proof {
            lemma_removed(old(self)@, e);
        }
        let n = self.entries.len();
        let mut i: usize = 0;
        while i < n
            invariant
                distinct_keys(self@),
                self@ == old(self)@,
                n == self@.len(),
                i <= n,
                forall|j: int| 0 <= j < i ==> (#[trigger] self@[j]).0 != e,
            decreases n - i,
        {
            if self.entries[i].0 == e {
                proof {
                    lemma_key_index_unique(self@, e, i as int);
                }
                self.entries.remove(i);
                return ;
            }
            i = i + 1;
        }
    }
}

/// The entities holding both component kinds, in `a`'s insertion order: one
/// pass, materialised at the call, so later storage changes never alter an
/// already-produced join result.
pub fn join<A: Copy, B: Copy>(a: &Storage<A>, b: &Storage<B>) -> (r: Vec<Entity>)
    ensures
        r@ == join_keys(a@, b@),
{
    let n = a.len();
    let mut out: Vec<Entity> = Vec::new();
    let mut i: usize = 0;
    while i < n
        invariant
            n == a@.len(),
            i <= n,
            out@ == join_keys(a@.take(i as int), b@),
        decreases n - i,
    {
        let (e, _v) = a.entry_at(i);
        proof {
            assert(a@.take(i + 1).drop_last() =~= a@.take(i as int));
            assert(a@.take(i + 1).last() == a@[i as int]);
        }
        if b.contains(e) {
            out.push(e);
        }
        i = i + 1;
    }
    proof {
        assert(a@.take(n as int) =~= a@);
    }
    out
}

} // verus!
