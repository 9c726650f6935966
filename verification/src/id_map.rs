use vstd::prelude::*;
use crate::models::{Epic, Story};

verus! {

/// An id-keyed collection stored as a vector of entries with strictly
/// increasing keys. Its mathematical value is the map from id to the
/// abstract value of the entry; the entry order is exposed separately so
/// that listings can be specified exactly.
#[derive(Debug)]
pub struct IdMap<V> {
    entries: Vec<(u32, V)>,
}

/// The map described by a sequence of key-value pairs; later pairs win.
pub open spec fn pairs_to_map<T>(s: Seq<(u32, T)>) -> Map<u32, T>
    decreases s.len(),
{
    if s.len() == 0 {
        Map::empty()
    } else {
        pairs_to_map(s.drop_last()).insert(s.last().0, s.last().1)
    }
}

pub proof fn lemma_pairs_to_map_dom<T>(s: Seq<(u32, T)>)
    ensures
        forall|k: u32|
            pairs_to_map(s).dom().contains(k) <==> exists|i: int|
                0 <= i < s.len() && (#[trigger] s[i]).0 == k,
    decreases s.len(),
{
    if s.len() > 0 {
        let t = s.drop_last();
        lemma_pairs_to_map_dom(t);
        assert forall|k: u32| pairs_to_map(s).dom().contains(k) implies exists|i: int|
            0 <= i < s.len() && (#[trigger] s[i]).0 == k by {
            if k == s.last().0 {
                assert(s[s.len() - 1].0 == k);
            } else {
                assert(pairs_to_map(t).dom().contains(k));
                let i = choose|i: int| 0 <= i < t.len() && (#[trigger] t[i]).0 == k;
                assert(t[i] == s[i]);
                assert(s[i].0 == k);
            }
        }
        assert forall|k: u32| (exists|i: int| 0 <= i < s.len() && (#[trigger] s[i]).0 == k)
            implies pairs_to_map(s).dom().contains(k) by {
            let i = choose|i: int| 0 <= i < s.len() && (#[trigger] s[i]).0 == k;
            if i < s.len() - 1 {
                assert(t[i] == s[i]);
                assert(t[i].0 == k);
                assert(pairs_to_map(t).dom().contains(k));
            }
        }
    }
}

pub proof fn lemma_pairs_to_map_get<T>(s: Seq<(u32, T)>, i: int)
    requires
        0 <= i < s.len(),
        forall|a: int, b: int| 0 <= a < b < s.len() ==> (#[trigger] s[a]).0 != (#[trigger] s[b]).0,
    ensures
        pairs_to_map(s).dom().contains(s[i].0),
        pairs_to_map(s)[s[i].0] == s[i].1,
    decreases s.len(),
{
    if i < s.len() - 1 {
        lemma_pairs_to_map_get(s.drop_last(), i);
        assert(s.drop_last()[i] == s[i]);
        assert(s[i].0 != s.last().0);
    }
}

pub proof fn lemma_pairs_to_map_push<T>(s: Seq<(u32, T)>, p: (u32, T))
    ensures
        pairs_to_map(s.push(p)) == pairs_to_map(s).insert(p.0, p.1),
{
    assert(s.push(p).drop_last() =~= s);
    assert(s.push(p).last() == p);
}

pub proof fn lemma_pairs_to_map_update<T>(s: Seq<(u32, T)>, i: int, v: T)
    requires
        0 <= i < s.len(),
        forall|a: int, b: int| 0 <= a < b < s.len() ==> (#[trigger] s[a]).0 != (#[trigger] s[b]).0,
    ensures
        pairs_to_map(s.update(i, (s[i].0, v))) == pairs_to_map(s).insert(s[i].0, v),
    decreases s.len(),
{
    let t = s.update(i, (s[i].0, v));
    if i == s.len() - 1 {
        assert(t.drop_last() =~= s.drop_last());
        assert(t.last() == (s[i].0, v));
        assert(pairs_to_map(t) =~= pairs_to_map(s).insert(s[i].0, v));
    } else {
        assert(t.drop_last() =~= s.drop_last().update(i, (s[i].0, v)));
        assert(s.drop_last()[i] == s[i]);
        lemma_pairs_to_map_update(s.drop_last(), i, v);
        assert(t.last() == s.last());
        assert(s[i].0 != s.last().0);
        assert(pairs_to_map(t) =~= pairs_to_map(s).insert(s[i].0, v));
    }
}

pub proof fn lemma_pairs_to_map_remove<T>(s: Seq<(u32, T)>, i: int)
    requires
        0 <= i < s.len(),
        forall|a: int, b: int| 0 <= a < b < s.len() ==> (#[trigger] s[a]).0 != (#[trigger] s[b]).0,
    ensures
        pairs_to_map(s.remove(i)) == pairs_to_map(s).remove(s[i].0),
    decreases s.len(),
{
    if i == s.len() - 1 {
        assert(s.remove(i) =~= s.drop_last());
        lemma_pairs_to_map_dom(s.drop_last());
        assert(!pairs_to_map(s.drop_last()).dom().contains(s[i].0));
        assert(pairs_to_map(s).remove(s[i].0) =~= pairs_to_map(s.drop_last()));
    } else {
        let t = s.remove(i);
        assert(t.drop_last() =~= s.drop_last().remove(i));
        assert(s.drop_last()[i] == s[i]);
        lemma_pairs_to_map_remove(s.drop_last(), i);
        assert(t.last() == s.last());
        assert(s[i].0 != s.last().0);
        assert(pairs_to_map(t) =~= pairs_to_map(s).remove(s[i].0));
    }
}

impl<V: View> IdMap<V> {
    /// Key-value pairs in storage order, with values abstracted.
    pub closed spec fn entry_seq(self) -> Seq<(u32, V::V)> {
        self.entries@.map_values(|p: (u32, V)| (p.0, p.1@))
    }

    /// Keys in storage order.
    pub open spec fn key_seq(self) -> Seq<u32> {
        self.entry_seq().map_values(|p: (u32, V::V)| p.0)
    }

    /// Keys are strictly increasing, hence unique.
    pub open spec fn inv(self) -> bool {
        forall|i: int, j: int|
            0 <= i < j < self.entry_seq().len() ==> (#[trigger] self.entry_seq()[i]).0
                < (#[trigger] self.entry_seq()[j]).0
    }

    pub fn new() -> (r: Self)
        ensures
            r.inv(),
            r.entry_seq() == Seq::<(u32, V::V)>::empty(),
            r@ == Map::<u32, V::V>::empty(),
    {
        let r = Self { entries: Vec::new() };
        proof {
            assert(r.entry_seq() =~= Seq::<(u32, V::V)>::empty());
            assert(r@ =~= Map::<u32, V::V>::empty());
        }
        r
    }

    pub fn len(&self) -> (r: usize)
        ensures
            r == self.entry_seq().len(),
    {
        self.entries.len()
    }

    pub fn get(&self, id: u32) -> (r: Option<&V>)
        requires
            self.inv(),
        ensures
            match r {
                Some(v) => self@.dom().contains(id) && v@ == self@[id],
                None => !self@.dom().contains(id),
            },
    {
        let n = self.entries.len();
        let mut i: usize = 0;
        while i < n
            invariant
                self.inv(),
                n == self.entries.len(),
                0 <= i <= n,
                forall|j: int| 0 <= j < i ==> (#[trigger] self.entry_seq()[j]).0 != id,
            decreases n - i,
        {
            if self.entries[i].0 == id {
                proof {
                    lemma_pairs_to_map_get(self.entry_seq(), i as int);
                }
                return Some(&self.entries[i].1);
            }
            i += 1;
        }
        proof {
            lemma_pairs_to_map_dom(self.entry_seq());
        }
        None
    }

    pub fn contains_key(&self, id: u32) -> (r: bool)
        requires
            self.inv(),
        ensures
            r == self@.dom().contains(id),
    {
        self.get(id).is_some()
    }

    /// Append an entry whose id is larger than every stored key.
    pub fn push_max(&mut self, id: u32, v: V)
        requires
            old(self).inv(),
            forall|j: int|
                0 <= j < old(self).entry_seq().len() ==> (#[trigger] old(self).entry_seq()[j]).0
                    < id,
        ensures
            final(self).inv(),
            final(self).entry_seq() == old(self).entry_seq().push((id, v@)),
            final(self)@ == old(self)@.insert(id, v@),
    {
        self.entries.push((id, v));
        proof {
            assert(self.entry_seq() =~= old(self).entry_seq().push((id, v@)));
            lemma_pairs_to_map_push(old(self).entry_seq(), (id, v@));
        }
    }

    /// Replace the value stored under an id that is present, keeping the
    /// entry order.
    pub fn replace(&mut self, id: u32, v: V) -> (r: bool)
        requires
            old(self).inv(),
        ensures
            final(self).inv(),
            old(self)@.dom().contains(id) ==> {
                &&& r
                &&& final(self)@ == old(self)@.insert(id, v@)
                &&& exists|i: int|
                    0 <= i < old(self).entry_seq().len() && (#[trigger] old(
                        self,
                    ).entry_seq()[i]).0 == id && final(self).entry_seq() == old(
                        self,
                    ).entry_seq().update(i, (id, v@))
                &&& final(self).key_seq() == old(self).key_seq()
            },
            !old(self)@.dom().contains(id) ==> !r && *final(self) == *old(self),
    {
        let n = self.entries.len();
        let mut i: usize = 0;
        while i < n
            invariant
                old(self).inv(),
                n == self.entries.len(),
                0 <= i <= n,
                *self == *old(self),
                forall|j: int| 0 <= j < i ==> (#[trigger] self.entry_seq()[j]).0 != id,
            decreases n - i,
        {
            if self.entries[i].0 == id {
                proof {
                    lemma_pairs_to_map_get(old(self).entry_seq(), i as int);
                    lemma_pairs_to_map_update(old(self).entry_seq(), i as int, v@);
                }
                self.entries.set(i, (id, v));
                proof {
                    assert(self.entry_seq() =~= old(self).entry_seq().update(
                        i as int,
                        (id, v@),
                    ));
                    assert(self.key_seq() =~= old(self).key_seq());
                }
                return true;
            }
            i += 1;
        }
        proof {
            lemma_pairs_to_map_dom(self.entry_seq());
        }
        false
    }

    /// Remove the entry stored under an id, if it is present.
    pub fn remove(&mut self, id: u32) -> (r: Option<V>)
        requires
            old(self).inv(),
        ensures
            final(self).inv(),
            old(self)@.dom().contains(id) ==> {
                &&& match r {
                    Some(v) => v@ == old(self)@[id],
                    None => false,
                }
                &&& final(self)@ == old(self)@.remove(id)
                &&& exists|i: int|
                    0 <= i < old(self).entry_seq().len() && (#[trigger] old(
                        self,
                    ).entry_seq()[i]).0 == id && final(self).entry_seq() == old(
                        self,
                    ).entry_seq().remove(i)
            },
            !old(self)@.dom().contains(id) ==> r is None && *final(self) == *old(self),
    {
        let n = self.entries.len();
        let mut i: usize = 0;
        while i < n
            invariant
                old(self).inv(),
                n == self.entries.len(),
                0 <= i <= n,
                *self == *old(self),
                forall|j: int| 0 <= j < i ==> (#[trigger] self.entry_seq()[j]).0 != id,
            decreases n - i,
        {
            if self.entries[i].0 == id {
                proof {
                    lemma_pairs_to_map_get(old(self).entry_seq(), i as int);
                    lemma_pairs_to_map_remove(old(self).entry_seq(), i as int);
                }
                let p = self.entries.remove(i);
                proof {
                    assert(self.entry_seq() =~= old(self).entry_seq().remove(i as int));
                    let t = old(self).entry_seq().remove(i as int);
                    assert forall|a: int, b: int| 0 <= a < b < t.len() implies (
                    #[trigger] t[a]).0 < (#[trigger] t[b]).0 by {
                        let oa = if a < i { a } else { a + 1 };
                        let ob = if b < i { b } else { b + 1 };
                        assert(t[a] == old(self).entry_seq()[oa]);
                        assert(t[b] == old(self).entry_seq()[ob]);
                    }
                }
                return Some(p.1);
            }
            i += 1;
        }
        proof {
            lemma_pairs_to_map_dom(self.entry_seq());
        }
        None
    }

    /// The key of the entry at a storage position.
    pub fn key_at(&self, i: usize) -> (r: u32)
        requires
            i < self.entry_seq().len(),
        ensures
            r == self.entry_seq()[i as int].0,
    {
        self.entries[i].0
    }

    /// The value of the entry at a storage position.
    pub fn value_at(&self, i: usize) -> (r: &V)
        requires
            i < self.entry_seq().len(),
        ensures
            r@ == self.entry_seq()[i as int].1,
    {
        &self.entries[i].1
    }

    /// The stored ids, in ascending storage order.
    pub fn ids(&self) -> (r: Vec<u32>)
        ensures
            r@ == self.key_seq(),
    {
        let n = self.entries.len();
        let mut r: Vec<u32> = Vec::new();
        let mut i: usize = 0;
        while i < n
            invariant
                n == self.entries.len(),
                0 <= i <= n,
                r@ == self.key_seq().subrange(0, i as int),
            decreases n - i,
        {
            r.push(self.entries[i].0);
            proof {
                assert(r@ =~= self.key_seq().subrange(0, i + 1 as int));
            }
            i += 1;
        }
        proof {
            assert(self.key_seq().subrange(0, n as int) =~= self.key_seq());
        }
        r
    }
}

impl<V: View> View for IdMap<V> {
    type V = Map<u32, V::V>;

    open spec fn view(&self) -> Map<u32, V::V> {
        pairs_to_map(self.entry_seq())
    }
}

impl Clone for IdMap<Epic> {
    fn clone(&self) -> (r: Self)
        ensures
            r.entry_seq() == self.entry_seq(),
    {
        let n = self.entries.len();
        let mut entries: Vec<(u32, Epic)> = Vec::new();
        let mut i: usize = 0;
        while i < n
            invariant
                n == self.entries.len(),
                0 <= i <= n,
                entries@.len() == i,
                forall|j: int|
                    0 <= j < i ==> ((#[trigger] entries@[j]).0, entries@[j].1@)
                        == self.entry_seq()[j],
            decreases n - i,
        {
            let p = &self.entries[i];
            entries.push((p.0, p.1.clone()));
            i += 1;
        }
        let r = Self { entries };
        proof {
            assert(r.entry_seq() =~= self.entry_seq());
        }
        r
    }
}

impl Clone for IdMap<Story> {
    fn clone(&self) -> (r: Self)
        ensures
            r.entry_seq() == self.entry_seq(),
    {
        let n = self.entries.len();
        let mut entries: Vec<(u32, Story)> = Vec::new();
        let mut i: usize = 0;
        while i < n
            invariant
                n == self.entries.len(),
                0 <= i <= n,
                entries@.len() == i,
                forall|j: int|
                    0 <= j < i ==> ((#[trigger] entries@[j]).0, entries@[j].1@)
                        == self.entry_seq()[j],
            decreases n - i,
        {
            let p = &self.entries[i];
            entries.push((p.0, p.1.clone()));
            i += 1;
        }
        let r = Self { entries };
        proof {
            assert(r.entry_seq() =~= self.entry_seq());
        }
        r
    }
}

impl PartialEq for IdMap<Epic> {
    fn eq(&self, other: &Self) -> (r: bool) {
        id_map_eq_epic(self, other)
    }
}

impl vstd::std_specs::cmp::PartialEqSpecImpl for IdMap<Epic> {
    open spec fn obeys_eq_spec() -> bool {
        true
    }

    open spec fn eq_spec(&self, other: &Self) -> bool {
        self.entry_seq() == other.entry_seq()
    }
}

/// Entry-by-entry comparison of two epic collections.
fn id_map_eq_epic(a: &IdMap<Epic>, b: &IdMap<Epic>) -> (r: bool)
    ensures
        r == (a.entry_seq() == b.entry_seq()),
{
    let n = a.entries.len();
    if n != b.entries.len() {
        proof {
            assert(a.entry_seq().len() != b.entry_seq().len());
        }
        return false;
    }
    let mut i: usize = 0;
    while i < n
        invariant
            n == a.entries.len(),
            n == b.entries.len(),
            0 <= i <= n,
            forall|j: int| 0 <= j < i ==> (#[trigger] a.entry_seq()[j]) == b.entry_seq()[j],
        decreases n - i,
    {
        let pa = &a.entries[i];
        let pb = &b.entries[i];
        if pa.0 != pb.0 || !(pa.1 == pb.1) {
            proof {
                assert(a.entry_seq()[i as int] != b.entry_seq()[i as int]);
            }
            return false;
        }
        i += 1;
    }
    proof {
        assert(a.entry_seq() =~= b.entry_seq());
    }
    true
}

impl PartialEq for IdMap<Story> {
    fn eq(&self, other: &Self) -> (r: bool) {
        id_map_eq_story(self, other)
    }
}

impl vstd::std_specs::cmp::PartialEqSpecImpl for IdMap<Story> {
    open spec fn obeys_eq_spec() -> bool {
        true
    }

    open spec fn eq_spec(&self, other: &Self) -> bool {
        self.entry_seq() == other.entry_seq()
    }
}

/// Entry-by-entry comparison of two story collections.
fn id_map_eq_story(a: &IdMap<Story>, b: &IdMap<Story>) -> (r: bool)
    ensures
        r == (a.entry_seq() == b.entry_seq()),
{
    let n = a.entries.len();
    if n != b.entries.len() {
        proof {
            assert(a.entry_seq().len() != b.entry_seq().len());
        }
        return false;
    }
    let mut i: usize = 0;
    while i < n
        invariant
            n == a.entries.len(),
            n == b.entries.len(),
            0 <= i <= n,
            forall|j: int| 0 <= j < i ==> (#[trigger] a.entry_seq()[j]) == b.entry_seq()[j],
        decreases n - i,
    {
        let pa = &a.entries[i];
        let pb = &b.entries[i];
        if pa.0 != pb.0 || !(pa.1 == pb.1) {
            proof {
                assert(a.entry_seq()[i as int] != b.entry_seq()[i as int]);
            }
            return false;
        }
        i += 1;
    }
    proof {
        assert(a.entry_seq() =~= b.entry_seq());
    }
    true
}

impl IdMap<Epic> {
    /// An owned copy of the epic stored under an id, if present.
    pub fn get_cloned(&self, id: u32) -> (r: Option<Epic>)
        requires
            self.inv(),
        ensures
            match r {
                Some(v) => self@.dom().contains(id) && v@ == self@[id],
                None => !self@.dom().contains(id),
            },
    {
        match self.get(id) {
            Some(v) => Some(v.clone()),
            None => None,
        }
    }
}

impl IdMap<Story> {
    /// An owned copy of the story stored under an id, if present.
    pub fn get_cloned(&self, id: u32) -> (r: Option<Story>)
        requires
            self.inv(),
        ensures
            match r {
                Some(v) => self@.dom().contains(id) && v@ == self@[id],
                None => !self@.dom().contains(id),
            },
    {
        match self.get(id) {
            Some(v) => Some(v.clone()),
            None => None,
        }
    }
}

} // verus!
