//! Executable coordinate sets and coordinate-keyed maps, backed by
//! duplicate-free vectors and viewed as mathematical `Set` and `Map` values.

use vstd::prelude::*;
use crate::geometry::Coord;

verus! {

/// A finite set of hex coordinates.
pub struct CoordSet {
    v: Vec<Coord>,
}

impl View for CoordSet {
    type V = Set<Coord>;

    closed spec fn view(&self) -> Set<Coord> {
        self.v@.to_set()
    }
}

impl CoordSet {
    /// The elements in the order the set enumerates them.
    pub closed spec fn items(&self) -> Seq<Coord> {
        self.v@
    }

    /// The backing vector holds each element once.
    pub open spec fn wf(&self) -> bool {
        self.items().no_duplicates()
    }

    /// The enumeration order and the set agree.
    pub proof fn lemma_items(&self)
        requires
            self.wf(),
        ensures
            self.items().to_set() == self@,
            self.items().no_duplicates(),
            self@.finite(),
            self@.len() == self.items().len(),
            forall|c: Coord| self@.contains(c) <==> self.items().contains(c),
    {
        broadcast use vstd::seq_lib::seq_to_set_is_finite;

        self.v@.unique_seq_to_set();
    }

    /// The empty set.
    pub fn new() -> (s: CoordSet)
        ensures
            s.wf(),
            s@ == Set::<Coord>::empty(),
            s.items() == Seq::<Coord>::empty(),
    {
        let s = CoordSet { v: Vec::new() };
        proof {
            assert(s@ =~= Set::<Coord>::empty());
        }
        s
    }

    /// How many elements the set holds.
    pub fn len(&self) -> (n: usize)
        requires
            self.wf(),
        ensures
            n == self@.len(),
            n == self.items().len(),
    {
        proof {
            self.lemma_items();
        }
        self.v.len()
    }

    /// Whether the set holds `c`.
    pub fn contains(&self, c: Coord) -> (found: bool)
        ensures
            found == self@.contains(c),
    {
        let mut k: usize = 0;
        while k < self.v.len()
            invariant
                0 <= k <= self.v@.len(),
                forall|j: int| 0 <= j < k ==> self.v@[j] != c,
            decreases self.v@.len() - k,
        {
            if self.v[k].0 == c.0 && self.v[k].1 == c.1 {
                assert(self.v@.contains(c));
                return true;
            }
            k += 1;
        }
        assert(!self.v@.contains(c));
        false
    }

    /// The element at position `i` of the enumeration order.
    pub fn index_at(&self, i: usize) -> (c: Coord)
        requires
            self.wf(),
            i < self.items().len(),
        ensures
            c == self.items()[i as int],
            self@.contains(c),
    {
        proof {
            assert(self.v@.contains(self.v@[i as int]));
        }
        self.v[i]
    }

    /// Add `c`; nothing changes when it is already present.
    pub fn insert(&mut self, c: Coord)
        requires
            old(self).wf(),
        ensures
            final(self).wf(),
            final(self)@ == old(self)@.insert(c),
            final(self).items() == if old(self)@.contains(c) {
                old(self).items()
            } else {
                old(self).items().push(c)
            },
    {
        if !self.contains(c) {
            self.v.push(c);
            proof {
                assert forall|a: int, b: int|
                    0 <= a < b < self.v@.len() implies self.v@[a] != self.v@[b] by {
                    if b == self.v@.len() - 1 {
                        assert(old(self).v@.contains(self.v@[a]));
                    }
                }
                old(self).v@.lemma_push_to_set_commute(c);
                assert(self@ =~= old(self)@.insert(c));
            }
        } else {
            proof {
                assert(self@ =~= old(self)@.insert(c));
            }
        }
    }

    /// Take `c` out; nothing changes when it is absent.
    pub fn remove(&mut self, c: Coord)
        requires
            old(self).wf(),
        ensures
            final(self).wf(),
            final(self)@ == old(self)@.remove(c),
            final(self).items().len() >= old(self).items().len() - 1,
            old(self)@.contains(c) ==> final(self).items().len() == old(self).items().len() - 1,
    {
        let mut k: usize = 0;
        while k < self.v.len()
            invariant
                self.v@ == old(self).v@,
                old(self).v@.no_duplicates(),
                0 <= k <= old(self).v@.len(),
                forall|j: int| 0 <= j < k ==> old(self).v@[j] != c,
            decreases old(self).v@.len() - k,
        {
            if self.v[k].0 == c.0 && self.v[k].1 == c.1 {
                self.v.remove(k);
                proof {
                    let pre = old(self).v@;
                    let post = self.v@;
                    pre.remove_ensures(k as int);
                    assert forall|a: int, b: int|
                        0 <= a < b < post.len() implies post[a] != post[b] by {
                        if b < k {
                            assert(post[a] == pre[a] && post[b] == pre[b]);
                        } else if a < k {
                            assert(post[a] == pre[a] && post[b] == pre[b + 1]);
                        } else {
                            assert(post[a] == pre[a + 1] && post[b] == pre[b + 1]);
                        }
                    }
                    assert(pre.contains(c));
                    assert forall|x: Coord| post.contains(x) implies pre.to_set().remove(
                        c,
                    ).contains(x) by {
                        let j = choose|j: int| 0 <= j < post.len() && post[j] == x;
                        if j < k {
                            assert(pre[j] == x);
                        } else {
                            assert(pre[j + 1] == x);
                            assert(j + 1 != k);
                        }
                        assert(pre.contains(x));
                        assert(x != c) by {
                            if x == c {
                                if j < k {
                                    assert(pre[j] == c && pre[k as int] == c);
                                } else {
                                    assert(pre[j + 1] == c && pre[k as int] == c);
                                }
                            }
                        }
                    }
                    assert forall|x: Coord| pre.to_set().remove(c).contains(x) implies post
                        .contains(x) by {
                        let j = choose|j: int| 0 <= j < pre.len() && pre[j] == x;
                        assert(j != k);
                        if j < k {
                            assert(post[j] == x);
                        } else {
                            assert(post[j - 1] == x);
                        }
                    }
                    assert(self@ =~= old(self)@.remove(c));
                }
                return ;
            }
            k += 1;
        }
        proof {
            assert(!old(self).v@.contains(c));
            assert(!old(self).v@.to_set().contains(c));
            assert(self@ =~= old(self)@.remove(c));
        }
    }

    /// The set holding every coordinate of `coords`.
    pub fn from_vec(coords: &Vec<Coord>) -> (s: CoordSet)
        ensures
            s.wf(),
            s@ == coords@.to_set(),
    {
        let mut s = CoordSet::new();
        let mut k: usize = 0;
        while k < coords.len()
            invariant
                0 <= k <= coords@.len(),
                s.wf(),
                s@ == coords@.take(k as int).to_set(),
            decreases coords@.len() - k,
        {
            s.insert(coords[k]);
            proof {
                assert(coords@.take(k + 1).drop_last() =~= coords@.take(k as int));
                assert(coords@.take(k + 1).last() == coords@[k as int]);
                assert forall|x: Coord| coords@.take(k + 1).to_set().contains(x) implies s@
                    .contains(x) by {
                    let j = choose|j: int|
                        0 <= j < k + 1 && #[trigger] coords@.take(k + 1)[j] == x;
                    if j < k {
                        assert(coords@.take(k as int)[j] == x);
                        assert(coords@.take(k as int).contains(x));
                    }
                }
                assert forall|x: Coord| s@.contains(x) implies coords@.take(k + 1).to_set().contains(
                    x,
                ) by {
                    if coords@.take(k as int).to_set().contains(x) {
                        let j = choose|j: int| 0 <= j < k && coords@.take(k as int)[j] == x;
                        assert(coords@.take(k + 1)[j] == x);
                    } else {
                        assert(coords@.take(k + 1)[k as int] == x);
                    }
                }
                assert(s@ =~= coords@.take(k + 1).to_set());
            }
            k += 1;
        }
        proof {
            assert(coords@.take(coords@.len() as int) =~= coords@);
        }
        s
    }
}

/// The partial map a sequence of key/value pairs stands for; later entries
/// would win, though a well-formed map holds each key once.
pub open spec fn map_of<V>(s: Seq<(Coord, V)>) -> Map<Coord, V>
    decreases s.len(),
{
    if s.len() == 0 {
        Map::empty()
    } else {
        map_of(s.drop_last()).insert(s.last().0, s.last().1)
    }
}

/// The keys of a sequence of key/value pairs, in order.
pub open spec fn keys_of<V>(s: Seq<(Coord, V)>) -> Seq<Coord> {
    s.map_values(|p: (Coord, V)| p.0)
}

/// A finite map from hex coordinates to copyable values.
pub struct CoordMap<V> {
    v: Vec<(Coord, V)>,
}

impl<V> View for CoordMap<V> {
    type V = Map<Coord, V>;

    closed spec fn view(&self) -> Map<Coord, V> {
        map_of(self.v@)
    }
}

/// The domain of `map_of` is exactly the set of keys that occur.
pub proof fn lemma_map_of_dom<V>(s: Seq<(Coord, V)>)
    ensures
        map_of(s).dom() == keys_of(s).to_set(),
        map_of(s).dom().finite(),
    decreases s.len(),
{
    broadcast use vstd::seq_lib::seq_to_set_is_finite;

    if s.len() == 0 {
        assert(keys_of(s).to_set() =~= Set::<Coord>::empty());
        assert(map_of(s).dom() =~= Set::<Coord>::empty());
    } else {
        lemma_map_of_dom(s.drop_last());
        assert(keys_of(s) =~= keys_of(s.drop_last()).push(s.last().0));
        keys_of(s.drop_last()).lemma_push_to_set_commute(s.last().0);
        assert(map_of(s).dom() =~= keys_of(s).to_set());
    }
}

/// In a sequence with distinct keys, every entry gives the map's value at
/// its key.
pub proof fn lemma_map_of_entry<V>(s: Seq<(Coord, V)>, i: int)
    requires
        keys_of(s).no_duplicates(),
        0 <= i < s.len(),
    ensures
        map_of(s).dom().contains(s[i].0),
        map_of(s)[s[i].0] == s[i].1,
    decreases s.len(),
{
    if i == s.len() - 1 {
    } else {
        assert(keys_of(s.drop_last()) =~= keys_of(s).drop_last());
        assert(keys_of(s)[i] != keys_of(s)[s.len() - 1]);
        lemma_map_of_entry(s.drop_last(), i);
        assert(s.drop_last()[i] == s[i]);
    }
}

/// With distinct keys, the map holds as many entries as the sequence.
pub proof fn lemma_map_of_len<V>(s: Seq<(Coord, V)>)
    requires
        keys_of(s).no_duplicates(),
    ensures
        map_of(s).dom().finite(),
        map_of(s).len() == s.len(),
{
    lemma_map_of_dom(s);
    keys_of(s).unique_seq_to_set();
}

impl<V: Copy> CoordMap<V> {
    /// The entries in the order the map enumerates them.
    pub closed spec fn entries(&self) -> Seq<(Coord, V)> {
        self.v@
    }

    /// The backing vector holds each key once.
    pub open spec fn wf(&self) -> bool {
        keys_of(self.entries()).no_duplicates()
    }

    /// The enumeration order and the map agree.
    pub proof fn lemma_entries(&self)
        requires
            self.wf(),
        ensures
            self@.len() == self.entries().len(),
            self@.dom().finite(),
            forall|i: int|
                0 <= i < self.entries().len() ==> self@.dom().contains(
                    (#[trigger] self.entries()[i]).0,
                ) && self@[self.entries()[i].0] == self.entries()[i].1,
            forall|k: Coord|
                self@.dom().contains(k) <==> keys_of(self.entries()).contains(k),
    {
        lemma_map_of_len(self.v@);
        lemma_map_of_dom(self.v@);
        assert(forall|k: Coord|
            keys_of(self.v@).to_set().contains(k) <==> keys_of(self.v@).contains(k));
        assert forall|i: int| 0 <= i < self.entries().len() implies self@.dom().contains(
            (#[trigger] self.entries()[i]).0,
        ) && self@[self.entries()[i].0] == self.entries()[i].1 by {
            lemma_map_of_entry(self.v@, i);
        }
    }

    /// The empty map.
    pub fn new() -> (m: CoordMap<V>)
        ensures
            m.wf(),
            m@ == Map::<Coord, V>::empty(),
            m.entries() == Seq::<(Coord, V)>::empty(),
    {
        CoordMap { v: Vec::new() }
    }

    /// How many keys the map holds.
    pub fn len(&self) -> (n: usize)
        requires
            self.wf(),
        ensures
            n == self@.len(),
            n == self.entries().len(),
    {
        proof {
            self.lemma_entries();
        }
        self.v.len()
    }

    /// The entry at position `i` of the enumeration order.
    pub fn entry_at(&self, i: usize) -> (e: (Coord, V))
        requires
            self.wf(),
            i < self.entries().len(),
        ensures
            e == self.entries()[i as int],
            self@.dom().contains(e.0),
            self@[e.0] == e.1,
    {
        proof {
            lemma_map_of_entry(self.v@, i as int);
        }
        self.v[i]
    }

    /// The value at `c`, when the map holds one.
    pub fn get(&self, c: Coord) -> (r: Option<V>)
        requires
            self.wf(),
        ensures
            r == if self@.dom().contains(c) {
                Some(self@[c])
            } else {
                None::<V>
            },
    {
        let mut k: usize = 0;
        while k < self.v.len()
            invariant
                self.wf(),
                0 <= k <= self.v@.len(),
                forall|j: int| 0 <= j < k ==> (#[trigger] self.v@[j]).0 != c,
            decreases self.v@.len() - k,
        {
            let e = self.v[k];
            if e.0.0 == c.0 && e.0.1 == c.1 {
                proof {
                    lemma_map_of_entry(self.v@, k as int);
                }
                return Some(e.1);
            }
            k += 1;
        }
        proof {
            lemma_map_of_dom(self.v@);
            assert(!keys_of(self.v@).contains(c)) by {
                if keys_of(self.v@).contains(c) {
                    let j = choose|j: int|
                        0 <= j < keys_of(self.v@).len() && #[trigger] keys_of(self.v@)[j] == c;
                    assert((self.v@[j]).0 == c);
                }
            }
        }
        None
    }

    /// Whether the map holds a value at `c`.
    pub fn contains_key(&self, c: Coord) -> (found: bool)
        requires
            self.wf(),
        ensures
            found == self@.dom().contains(c),
    {
        self.get(c).is_some()
    }

    /// Bind `c` to `val`, overwriting any earlier binding.
    pub fn insert(&mut self, c: Coord, val: V)
        requires
            old(self).wf(),
        ensures
            final(self).wf(),
            final(self)@ == old(self)@.insert(c, val),
            !old(self)@.dom().contains(c) ==> final(self).entries() == old(self).entries().push(
                (c, val),
            ),
    {
        let mut k: usize = 0;
        while k < self.v.len()
            invariant
                self.v@ == old(self).v@,
                keys_of(old(self).v@).no_duplicates(),
                0 <= k <= old(self).v@.len(),
                forall|j: int| 0 <= j < k ==> (#[trigger] old(self).v@[j]).0 != c,
            decreases old(self).v@.len() - k,
        {
            let e = self.v[k];
            if e.0.0 == c.0 && e.0.1 == c.1 {
                self.v.set(k, (c, val));
                proof {
                    let pre = old(self).v@;
                    lemma_map_of_entry(pre, k as int);
                    lemma_map_of_update(pre, k as int, val);
                    assert(pre[k as int].0 == c);
                    assert(pre.update(k as int, (c, val)) =~= self.v@);
                    assert(keys_of(self.v@) =~= keys_of(pre));
                }
                return ;
            }
            k += 1;
        }
        self.v.push((c, val));
        proof {
            let pre = old(self).v@;
            assert(self.v@.drop_last() =~= pre);
            assert(map_of(self.v@) == map_of(pre).insert(c, val));
            assert forall|a: int, b: int|
                0 <= a < b < keys_of(self.v@).len() implies keys_of(self.v@)[a] != keys_of(
                self.v@,
            )[b] by {
                if b == self.v@.len() - 1 {
                    assert((pre[a]).0 != c);
                } else {
                    assert(keys_of(pre)[a] != keys_of(pre)[b]);
                }
            }
        }
    }

    /// The map is the one its entry sequence stands for.
    pub proof fn lemma_view_entries(&self)
        ensures
            self@ == map_of(self.entries()),
    {
    }

    /// Drop every binding.
    pub fn clear(&mut self)
        ensures
            final(self).wf(),
            final(self)@ == Map::<Coord, V>::empty(),
            final(self).entries() == Seq::<(Coord, V)>::empty(),
    {
        self.v.clear();
    }
}

/// Updating the value at one position of a distinct-key sequence updates the
/// map at that key.
pub proof fn lemma_map_of_update<V>(s: Seq<(Coord, V)>, i: int, val: V)
    requires
        keys_of(s).no_duplicates(),
        0 <= i < s.len(),
    ensures
        map_of(s.update(i, (s[i].0, val))) == map_of(s).insert(s[i].0, val),
    decreases s.len(),
{
    let k = s[i].0;
    let t = s.update(i, (k, val));
    if i == s.len() - 1 {
        assert(t.drop_last() =~= s.drop_last());
        assert(t.last() == (k, val));
        assert(map_of(t) =~= map_of(s).insert(k, val));
    } else {
        assert(keys_of(s.drop_last()) =~= keys_of(s).drop_last());
        assert(t.drop_last() =~= s.drop_last().update(i, (k, val)));
        assert(s.drop_last()[i] == s[i]);
        lemma_map_of_update(s.drop_last(), i, val);
        assert(t.last() == s.last());
        assert(keys_of(s)[i] != keys_of(s)[s.len() - 1]);
        assert(k != s.last().0);
        assert(map_of(t) == map_of(s.drop_last()).insert(k, val).insert(s.last().0, s.last().1));
        assert(map_of(s.drop_last()).insert(k, val).insert(s.last().0, s.last().1) =~= map_of(
            s,
        ).insert(k, val));
    }
}

} // verus!
