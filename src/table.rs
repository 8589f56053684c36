//! A map from strings to strings where a later insertion under a name replaces the
//! earlier value: the table of variables.

use vstd::prelude::*;

verus! {

/// The map that inserting the entries in order builds.
pub open spec fn map_of(e: Seq<(String, String)>) -> Map<Seq<char>, Seq<char>>
    decreases e.len(),
{
    if e.len() == 0 {
        Map::empty()
    } else {
        map_of(e.drop_last()).insert(e.last().0@, e.last().1@)
    }
}

pub open spec fn keys_distinct(e: Seq<(String, String)>) -> bool {
    forall|i: int, j: int| 0 <= i < j < e.len() ==> (#[trigger] e[i]).0@ != (#[trigger] e[j]).0@
}

proof fn lemma_map_of_dom(e: Seq<(String, String)>, k: Seq<char>)
    ensures
        map_of(e).contains_key(k) <==> exists|i: int| 0 <= i < e.len() && (#[trigger] e[i]).0@ == k,
    decreases e.len(),
{
    if e.len() > 0 {
        lemma_map_of_dom(e.drop_last(), k);
        if map_of(e.drop_last()).contains_key(k) {
            let i = choose|i: int| 0 <= i < e.len() - 1 && (#[trigger] e.drop_last()[i]).0@ == k;
            assert(e[i] == e.drop_last()[i]);
        }
        if exists|i: int| 0 <= i < e.len() && (#[trigger] e[i]).0@ == k {
            let i = choose|i: int| 0 <= i < e.len() && (#[trigger] e[i]).0@ == k;
            if i < e.len() - 1 {
                assert(e.drop_last()[i] == e[i]);
            }
        }
    }
}

proof fn lemma_map_of_finite(e: Seq<(String, String)>)
    ensures
        map_of(e).dom().finite(),
        keys_distinct(e) ==> map_of(e).dom().len() == e.len(),
    decreases e.len(),
{
    if e.len() > 0 {
        lemma_map_of_finite(e.drop_last());
        if keys_distinct(e) {
            assert(keys_distinct(e.drop_last())) by {
                assert forall|i: int, j: int| 0 <= i < j < e.len() - 1 implies (
                #[trigger] e.drop_last()[i]).0@ != (#[trigger] e.drop_last()[j]).0@ by {
                    assert(e.drop_last()[i] == e[i] && e.drop_last()[j] == e[j]);
                }
            }
            lemma_map_of_dom(e.drop_last(), e.last().0@);
            if map_of(e.drop_last()).contains_key(e.last().0@) {
                let i = choose|i: int|
                    0 <= i < e.len() - 1 && (#[trigger] e.drop_last()[i]).0@ == e.last().0@;
                assert(e[i] == e.drop_last()[i]);
                assert(e[i].0@ != e[e.len() - 1].0@);
            }
        }
    }
}

proof fn lemma_map_of_get(e: Seq<(String, String)>, i: int)
    requires
        keys_distinct(e),
        0 <= i < e.len(),
    ensures
        map_of(e).contains_key(e[i].0@),
        map_of(e)[e[i].0@] == e[i].1@,
    decreases e.len(),
{
    if i < e.len() - 1 {
        assert(e.drop_last()[i] == e[i]);
        assert(keys_distinct(e.drop_last())) by {
            assert forall|a: int, b: int| 0 <= a < b < e.len() - 1 implies (
            #[trigger] e.drop_last()[a]).0@ != (#[trigger] e.drop_last()[b]).0@ by {
                assert(e.drop_last()[a] == e[a] && e.drop_last()[b] == e[b]);
            }
        }
        lemma_map_of_get(e.drop_last(), i);
        assert(e[i].0@ != e[e.len() - 1].0@);
    }
}

proof fn lemma_map_of_update(e: Seq<(String, String)>, i: int, p: (String, String))
    requires
        0 <= i < e.len(),
        e[i].0@ == p.0@,
        keys_distinct(e),
    ensures
        map_of(e.update(i, p)) == map_of(e).insert(p.0@, p.1@),
    decreases e.len(),
{
    let f = e.update(i, p);
    assert(keys_distinct(e.drop_last())) by {
        assert forall|a: int, b: int| 0 <= a < b < e.len() - 1 implies (
        #[trigger] e.drop_last()[a]).0@ != (#[trigger] e.drop_last()[b]).0@ by {
            assert(e.drop_last()[a] == e[a] && e.drop_last()[b] == e[b]);
        }
    }
    if i == e.len() - 1 {
        assert(f.drop_last() =~= e.drop_last());
        assert(map_of(e).insert(p.0@, p.1@) =~= map_of(e.drop_last()).insert(p.0@, p.1@));
    } else {
        assert(f.drop_last() =~= e.drop_last().update(i, p));
        assert(e.drop_last()[i] == e[i]);
        lemma_map_of_update(e.drop_last(), i, p);
        assert(e[i].0@ != e.last().0@);
        assert(map_of(f) =~= map_of(e).insert(p.0@, p.1@));
    }
}

/// A map from names to values; each name is held once.
#[derive(Debug)]
pub struct StringMap {
    entries: Vec<(String, String)>,
}

impl View for StringMap {
    type V = Map<Seq<char>, Seq<char>>;

    closed spec fn view(&self) -> Map<Seq<char>, Seq<char>> {
        map_of(self.entries@)
    }
}

impl StringMap {
    /// The map is well formed: no name is held twice.
    pub closed spec fn wf(&self) -> bool {
        keys_distinct(self.entries@)
    }

    /// An empty map.
    pub fn new() -> (r: StringMap)
        ensures
            r.wf(),
            r@ == Map::<Seq<char>, Seq<char>>::empty(),
    {
        StringMap { entries: Vec::new() }
    }

    /// Associates `value` with `name`, replacing any earlier value of `name`.
    pub fn insert(&mut self, name: String, value: String)
        requires
            old(self).wf(),
        ensures
            final(self).wf(),
            final(self)@ == old(self)@.insert(name@, value@),
    {
        let mut i: usize = 0;
        while i < self.entries.len()
            invariant
                i <= self.entries@.len(),
                self.entries@ == old(self).entries@,
                keys_distinct(self.entries@),
                forall|j: int| 0 <= j < i ==> (#[trigger] self.entries@[j]).0@ != name@,
            decreases self.entries@.len() - i,
        {
            if self.entries[i].0 == name {
                proof {
                    lemma_map_of_update(self.entries@, i as int, (name, value));
                    assert forall|a: int, b: int|
                        0 <= a < b < self.entries@.len() implies (#[trigger] self.entries@.update(
                        i as int,
                        (name, value),
                    )[a]).0@ != (#[trigger] self.entries@.update(i as int, (name, value))[b]).0@ by {}
                }
                self.entries.set(i, (name, value));
                return;
            }
            i = i + 1;
        }
        proof {
            lemma_map_of_dom(self.entries@, name@);
            assert(self.entries@.push((name, value)).drop_last() =~= self.entries@);
        }
        self.entries.push((name, value));
    }

    /// The value held for `name`, if any.
    pub fn get(&self, name: &str) -> (r: Option<&String>)
        requires
            self.wf(),
        ensures
            r is Some <==> self@.contains_key(name@),
            r is Some ==> r->0@ == self@[name@],
    {
        let key = name.to_owned();
        let mut i: usize = 0;
        while i < self.entries.len()
            invariant
                i <= self.entries@.len(),
                key@ == name@,
                keys_distinct(self.entries@),
                forall|j: int| 0 <= j < i ==> (#[trigger] self.entries@[j]).0@ != name@,
            decreases self.entries@.len() - i,
        {
            if self.entries[i].0 == key {
                proof {
                    lemma_map_of_get(self.entries@, i as int);
                }
                return Some(&self.entries[i].1);
            }
            i = i + 1;
        }
        proof {
            lemma_map_of_dom(self.entries@, name@);
        }
        None
    }

    /// The number of names held.
    pub fn len(&self) -> (r: usize)
        requires
            self.wf(),
        ensures
            r == self@.dom().len(),
    {
        proof {
            lemma_map_of_finite(self.entries@);
        }
        self.entries.len()
    }

    /// Whether no name is held.
    pub fn is_empty(&self) -> (r: bool)
        requires
            self.wf(),
        ensures
            r == (self@.dom().len() == 0),
    {
        proof {
            lemma_map_of_finite(self.entries@);
        }
        self.entries.len() == 0
    }

    /// A copy of the map.
    pub fn duplicate(&self) -> (r: StringMap)
        requires
            self.wf(),
        ensures
            r.wf(),
            r@ == self@,
    {
        let mut entries: Vec<(String, String)> = Vec::new();
        let mut i: usize = 0;
        while i < self.entries.len()
            invariant
                i <= self.entries@.len(),
                entries@ == self.entries@.take(i as int),
            decreases self.entries@.len() - i,
        {
            let name = self.entries[i].0.clone();
            let value = self.entries[i].1.clone();
            assert(self.entries@.take(i + 1) =~= entries@.push((name, value)));
            entries.push((name, value));
            i = i + 1;
        }
        assert(entries@ =~= self.entries@);
        StringMap { entries }
    }
}

} // verus!
