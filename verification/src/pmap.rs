//! A small map from grid points to values, backed by a vector of entries
//! with pairwise-distinct keys. The search keeps its per-call bookkeeping
//! (best known costs and predecessor links) in maps of this kind, and the
//! verification views such a map as a mathematical `Map<Point, T>`.

use vstd::prelude::*;
use crate::point::Point;

verus! {

/// The mathematical map described by a sequence of entries; a later entry
/// for the same key wins, though well-formed maps never hold two.
pub open spec fn map_of<T>(s: Seq<(Point, T)>) -> Map<Point, T>
    decreases s.len(),
{
    if s.len() == 0 {
        Map::empty()
    } else {
        map_of(s.drop_last()).insert(s.last().0, s.last().1)
    }
}

/// No two entries share a key.
pub open spec fn keys_distinct<T>(s: Seq<(Point, T)>) -> bool {
    forall|i: int, j: int| 0 <= i < j < s.len() ==> s[i].0 != s[j].0
}

/// A key is in the map exactly when some entry carries it.
pub proof fn lemma_map_of_contains<T>(s: Seq<(Point, T)>, k: Point)
    ensures
        map_of(s).contains_key(k) <==> exists|i: int| 0 <= i < s.len() && s[i].0 == k,
    decreases s.len(),
{
    if s.len() > 0 {
        lemma_map_of_contains(s.drop_last(), k);
        if s.last().0 == k {
            assert(s[s.len() - 1].0 == k);
        } else {
            if exists|i: int| 0 <= i < s.len() - 1 && s.drop_last()[i].0 == k {
                let i = choose|i: int| 0 <= i < s.len() - 1 && s.drop_last()[i].0 == k;
                assert(s[i].0 == k);
            }
            if exists|i: int| 0 <= i < s.len() && s[i].0 == k {
                let i = choose|i: int| 0 <= i < s.len() && s[i].0 == k;
                assert(i < s.len() - 1 && s.drop_last()[i].0 == k);
            }
        }
    }
}

/// In a well-formed entry sequence, the entry holding a key gives its value.
pub proof fn lemma_map_of_value<T>(s: Seq<(Point, T)>, i: int)
    requires
        keys_distinct(s),
        0 <= i < s.len(),
    ensures
        map_of(s).contains_key(s[i].0),
        map_of(s)[s[i].0] == s[i].1,
    decreases s.len(),
{
    if i == s.len() - 1 {
    } else {
        assert(s[i].0 != s.last().0);
        assert(s.drop_last()[i] == s[i]);
        lemma_map_of_value(s.drop_last(), i);
    }
}

/// A well-formed entry sequence describes a finite map with one key per entry.
pub proof fn lemma_map_of_dom<T>(s: Seq<(Point, T)>)
    requires
        keys_distinct(s),
    ensures
        map_of(s).dom().finite(),
        map_of(s).dom().len() == s.len(),
    decreases s.len(),
{
    if s.len() > 0 {
        lemma_map_of_dom(s.drop_last());
        lemma_map_of_contains(s.drop_last(), s.last().0);
        assert(forall|i: int| 0 <= i < s.len() - 1 ==> s.drop_last()[i].0 == s[i].0);
        assert(!map_of(s.drop_last()).contains_key(s.last().0));
        assert(map_of(s).dom() =~= map_of(s.drop_last()).dom().insert(s.last().0));
    }
}

/// Replacing the value of an existing entry updates the described map at
/// that key alone.
pub proof fn lemma_map_of_update<T>(s: Seq<(Point, T)>, i: int, v: T)
    requires
        keys_distinct(s),
        0 <= i < s.len(),
    ensures
        keys_distinct(s.update(i, (s[i].0, v))),
        map_of(s.update(i, (s[i].0, v))) == map_of(s).insert(s[i].0, v),
    decreases s.len(),
{
    let k = s[i].0;
    let t = s.update(i, (k, v));
    assert(forall|j: int| 0 <= j < s.len() && j != i ==> t[j] == s[j]);
    assert(t[i].0 == k);
    assert(keys_distinct(t));
    if i == s.len() - 1 {
        assert(t.drop_last() =~= s.drop_last());
        assert(map_of(t) == map_of(s.drop_last()).insert(k, v));
        assert(map_of(s.drop_last()).insert(k, s[i].1).insert(k, v) =~= map_of(
            s.drop_last(),
        ).insert(k, v));
    } else {
        assert(t.drop_last() =~= s.drop_last().update(i, (k, v)));
        assert(s.drop_last()[i] == s[i]);
        lemma_map_of_update(s.drop_last(), i, v);
        assert(k != s.last().0);
        assert(map_of(s.drop_last()).insert(k, v).insert(s.last().0, s.last().1) =~= map_of(
            s.drop_last(),
        ).insert(s.last().0, s.last().1).insert(k, v));
    }
}

/// A map over grid points with vector-backed storage and distinct keys.
pub struct PointMap<T> {
    entries: Vec<(Point, T)>,
}

impl<T> View for PointMap<T> {
    type V = Map<Point, T>;

    closed spec fn view(&self) -> Map<Point, T> {
        map_of(self.entries@)
    }
}

impl<T: Copy> PointMap<T> {
    /// The backing entries, for reasoning that needs the storage itself,
    /// such as termination measures over it.
    pub closed spec fn entries_view(&self) -> Seq<(Point, T)> {
        self.entries@
    }

    /// The storage holds each key once.
    pub closed spec fn wf(&self) -> bool {
        keys_distinct(self.entries@)
    }

    /// The described map is the one the entries spell out, and
    /// well-formedness is exactly key distinctness of the entries.
    pub proof fn lemma_view_entries(&self)
        ensures
            self@ == map_of(self.entries_view()),
            self.wf() == keys_distinct(self.entries_view()),
    {
    }

    /// A well-formed map has a finite domain with one key per entry.
    pub proof fn lemma_dom(&self)
        requires
            self.wf(),
        ensures
            self@.dom().finite(),
            self@.dom().len() == self.entries_view().len(),
    {
        lemma_map_of_dom(self.entries@);
    }

    /// An empty map.
    pub fn new() -> (m: Self)
        ensures
            m.wf(),
            m@ == Map::<Point, T>::empty(),
            m.entries_view() == Seq::<(Point, T)>::empty(),
    {
        let m = PointMap { entries: Vec::new() };
        proof {
            assert(m.entries@.len() == 0);
        }
        m
    }

    /// How many keys the map holds.
    pub fn len(&self) -> (n: usize)
        ensures
            n == self.entries_view().len(),
    {
        self.entries.len()
    }

    /// The value recorded for a key, or `None` if the key is absent.
    pub fn get(&self, k: Point) -> (r: Option<T>)
        requires
            self.wf(),
        ensures
            match r {
                Some(v) => self@.contains_key(k) && self@[k] == v,
                None => !self@.contains_key(k),
            },
    {
        let n = self.entries.len();
        let mut i: usize = 0;
        while i < n
            invariant
                self.wf(),
                n == self.entries@.len(),
                i <= n,
                forall|j: int| 0 <= j < i ==> self.entries@[j].0 != k,
            decreases n - i,
        {
            let (ek, ev) = self.entries[i];
            if ek == k {
                proof {
                    lemma_map_of_value(self.entries@, i as int);
                }
                return Some(ev);
            }
            i = i + 1;
        }
        proof {
            lemma_map_of_contains(self.entries@, k);
        }
        None
    }

    /// Whether a key is present.
    pub fn contains_key(&self, k: Point) -> (r: bool)
        requires
            self.wf(),
        ensures
            r == self@.contains_key(k),
    {
        match self.get(k) {
            Some(_) => true,
            None => false,
        }
    }

    /// Record a value for a key, replacing any earlier value. The entry of
    /// an existing key is overwritten in place; a fresh key appends one.
    pub fn insert(&mut self, k: Point, v: T)
        requires
            old(self).wf(),
        ensures
            final(self).wf(),
            final(self)@ == old(self)@.insert(k, v),
            old(self)@.contains_key(k) ==> exists|i: int|
                0 <= i < old(self).entries_view().len() && old(self).entries_view()[i].0 == k
                    && final(self).entries_view() == old(self).entries_view().update(i, (k, v)),
            !old(self)@.contains_key(k) ==> final(self).entries_view() == old(
                self,
            ).entries_view().push((k, v)),
    {
        let n = self.entries.len();
        let mut i: usize = 0;
        while i < n
            invariant
                self.wf(),
                self == old(self),
                n == self.entries@.len(),
                i <= n,
                forall|j: int| 0 <= j < i ==> self.entries@[j].0 != k,
            decreases n - i,
        {
            let (ek, _) = self.entries[i];
            if ek == k {
                proof {
                    lemma_map_of_value(self.entries@, i as int);
                    lemma_map_of_update(self.entries@, i as int, v);
                }
                self.entries[i] = (k, v);
                proof {
                    let gi = i as int;
                    assert(0 <= gi < old(self).entries_view().len() && old(
                        self,
                    ).entries_view()[gi].0 == k && self.entries_view() == old(
                        self,
                    ).entries_view().update(gi, (k, v)));
                }
                return ;
            }
            i = i + 1;
        }
        proof {
            lemma_map_of_contains(self.entries@, k);
            assert(self.entries@.push((k, v)).drop_last() =~= self.entries@);
            assert(keys_distinct(self.entries@.push((k, v))));
        }
        self.entries.push((k, v));
    }
}

} // verus!
