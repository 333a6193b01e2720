//! A map with text keys that is walked in the order its keys came in.

use crate::text::same_text;
use vstd::prelude::*;

verus! {

/// The map that a list of entries stands for; later entries win.
pub open spec fn map_of<V>(e: Seq<(Seq<char>, V)>) -> Map<Seq<char>, V>
    decreases e.len(),
{
    if e.len() == 0 {
        Map::empty()
    } else {
        map_of(e.drop_last()).insert(e.last().0, e.last().1)
    }
}

/// No key occurs twice.
pub open spec fn distinct_keys<V>(e: Seq<(Seq<char>, V)>) -> bool {
    forall|i: int, j: int| 0 <= i < j < e.len() ==> (#[trigger] e[i]).0 != (#[trigger] e[j]).0
}

/// Whether some entry has the key.
pub open spec fn has_key<V>(e: Seq<(Seq<char>, V)>, k: Seq<char>) -> bool {
    exists|i: int| 0 <= i < e.len() && (#[trigger] e[i]).0 == k
}

/// The entries after `k` is set to `v`: in place, or at the end.
pub open spec fn with_entry<V>(e: Seq<(Seq<char>, V)>, k: Seq<char>, v: V) -> Seq<
    (Seq<char>, V),
> {
    if has_key(e, k) {
        e.update(choose|i: int| 0 <= i < e.len() && (#[trigger] e[i]).0 == k, (k, v))
    } else {
        e.push((k, v))
    }
}

/// A key of the map is a key of some entry.
pub proof fn lemma_map_of_domain<V>(e: Seq<(Seq<char>, V)>, k: Seq<char>)
    ensures
        map_of(e).dom().contains(k) <==> has_key(e, k),
    decreases e.len(),
{
    if e.len() > 0 {
        let init = e.drop_last();
        lemma_map_of_domain(init, k);
        if has_key(init, k) {
            let i = choose|i: int| 0 <= i < init.len() && (#[trigger] init[i]).0 == k;
            assert(e[i].0 == k);
        }
        if has_key(e, k) && e.last().0 != k {
            let i = choose|i: int| 0 <= i < e.len() && (#[trigger] e[i]).0 == k;
            assert(init[i].0 == k);
        }
        if e.last().0 == k {
            assert(e[e.len() - 1].0 == k);
        }
    }
}

/// With distinct keys, every entry is in the map.
pub proof fn lemma_map_of_entry<V>(e: Seq<(Seq<char>, V)>, i: int)
    requires
        distinct_keys(e),
        0 <= i < e.len(),
    ensures
        map_of(e).dom().contains(e[i].0),
        map_of(e)[e[i].0] == e[i].1,
    decreases e.len(),
{
    if i < e.len() - 1 {
        assert(e[i].0 != e[e.len() - 1].0);
        lemma_map_of_entry(e.drop_last(), i);
    }
}

/// With distinct keys, writing one entry in place writes one key of the map.
proof fn lemma_map_of_update<V>(e: Seq<(Seq<char>, V)>, i: int, v: V)
    requires
        distinct_keys(e),
        0 <= i < e.len(),
    ensures
        distinct_keys(e.update(i, (e[i].0, v))),
        map_of(e.update(i, (e[i].0, v))) == map_of(e).insert(e[i].0, v),
    decreases e.len(),
{
    let n = e.update(i, (e[i].0, v));
    assert forall|a: int, b: int| 0 <= a < b < n.len() implies (#[trigger] n[a]).0 != (
    #[trigger] n[b]).0 by {
        assert(e[a].0 != e[b].0);
    }
    if i < e.len() - 1 {
        lemma_map_of_update(e.drop_last(), i, v);
        assert(n.drop_last() =~= e.drop_last().update(i, (e[i].0, v)));
        assert(e[i].0 != e[e.len() - 1].0);
        assert(map_of(n) =~= map_of(e).insert(e[i].0, v));
    } else {
        assert(n.drop_last() =~= e.drop_last());
        assert(map_of(n) =~= map_of(e).insert(e[i].0, v));
    }
}

/// With distinct keys, dropping one entry drops one key of the map.
proof fn lemma_map_of_remove<V>(e: Seq<(Seq<char>, V)>, i: int)
    requires
        distinct_keys(e),
        0 <= i < e.len(),
    ensures
        distinct_keys(e.remove(i)),
        map_of(e.remove(i)) == map_of(e).remove(e[i].0),
    decreases e.len(),
{
    let n = e.remove(i);
    assert forall|a: int, b: int| 0 <= a < b < n.len() implies (#[trigger] n[a]).0 != (
    #[trigger] n[b]).0 by {
        let a2 = if a < i {
            a
        } else {
            a + 1
        };
        let b2 = if b < i {
            b
        } else {
            b + 1
        };
        assert(e[a2].0 != e[b2].0);
    }
    if i < e.len() - 1 {
        lemma_map_of_remove(e.drop_last(), i);
        assert(n.drop_last() =~= e.drop_last().remove(i));
        assert(e[i].0 != e[e.len() - 1].0);
        assert(map_of(n) =~= map_of(e).remove(e[i].0));
    } else {
        assert(n =~= e.drop_last());
        lemma_map_of_domain(e.drop_last(), e[i].0);
        if has_key(e.drop_last(), e[i].0) {
            let k = choose|k: int|
                0 <= k < e.drop_last().len() && (#[trigger] e.drop_last()[k]).0 == e[i].0;
            assert(e[k].0 != e[i].0);
        }
        assert(map_of(n) =~= map_of(e).remove(e[i].0));
    }
}

/// A map with text keys.
pub struct StringMap<V> {
    items: Vec<(String, V)>,
}

impl<V> View for StringMap<V> {
    type V = Map<Seq<char>, V>;

    open spec fn view(&self) -> Map<Seq<char>, V> {
        map_of(self.entries())
    }
}

impl<V> StringMap<V> {
    /// The entries in the order in which they are walked.
    pub closed spec fn entries(&self) -> Seq<(Seq<char>, V)> {
        self.items@.map_values(|e: (String, V)| (e.0@, e.1))
    }

    #[verifier::type_invariant]
    spec fn keys_distinct(self) -> bool {
        distinct_keys(self.entries())
    }

    /// The map without entries.
    pub fn new() -> (r: Self)
        ensures
            r.entries() == Seq::<(Seq<char>, V)>::empty(),
            r@ == Map::<Seq<char>, V>::empty(),
    {
        let r = StringMap { items: Vec::new() };
        assert(r.entries() =~= Seq::<(Seq<char>, V)>::empty());
        r
    }

    /// How many entries there are.
    pub fn size(&self) -> (r: usize)
        ensures
            r == self.entries().len(),
            distinct_keys(self.entries()),
    {
        proof {
            use_type_invariant(self);
        }
        self.items.len()
    }

    /// The key of the entry at a position.
    pub fn key_at(&self, i: usize) -> (r: &String)
        requires
            i < self.entries().len(),
        ensures
            r@ == self.entries()[i as int].0,
    {
        &self.items[i].0
    }

    /// The value of the entry at a position.
    pub fn value_at(&self, i: usize) -> (r: &V)
        requires
            i < self.entries().len(),
        ensures
            *r == self.entries()[i as int].1,
    {
        &self.items[i].1
    }

    /// Position of a key, if it is there.
    fn position(&self, key: &str) -> (r: Option<usize>)
        ensures
            match r {
                Some(i) => i < self.entries().len() && self.entries()[i as int].0 == key@,
                None => !has_key(self.entries(), key@),
            },
    {
        let mut i: usize = 0;
        while i < self.items.len()
            invariant
                i <= self.items@.len(),
                forall|k: int| 0 <= k < i ==> (#[trigger] self.entries()[k]).0 != key@,
            decreases self.items@.len() - i,
        {
            if same_text(self.items[i].0.as_str(), key) {
                return Some(i);
            }
            i = i + 1;
        }
        None
    }

    /// The value of a key, if it is there.
    pub fn get(&self, key: &str) -> (r: Option<&V>)
        ensures
            match r {
                Some(v) => self@.dom().contains(key@) && *v == self@[key@],
                None => !self@.dom().contains(key@),
            },
    {
        proof {
            use_type_invariant(self);
            lemma_map_of_domain(self.entries(), key@);
        }
        match self.position(key) {
            Some(i) => {
                proof {
                    lemma_map_of_entry(self.entries(), i as int);
                }
                Some(&self.items[i].1)
            },
            None => None,
        }
    }

    /// Set a key to a value, replacing what it had.
    pub fn insert(&mut self, key: String, value: V)
        ensures
            final(self)@ == old(self)@.insert(key@, value),
            final(self).entries() == with_entry(old(self).entries(), key@, value),
    {
        proof {
            use_type_invariant(&*self);
        }
        let ghost before = self.entries();
        let found = self.position(key.as_str());
        let mut items: Vec<(String, V)> = Vec::new();
        match found {
            Some(i) => {
                proof {
                    lemma_map_of_update(before, i as int, value);
                    let c = choose|c: int|
                        0 <= c < before.len() && (#[trigger] before[c]).0 == key@;
                    assert(before[i as int].0 == key@);
                    assert(c == i) by {
                        if c < i {
                            assert(before[c].0 != before[i as int].0);
                        }
                        if i < c {
                            assert(before[i as int].0 != before[c].0);
                        }
                    }
                }
                let ghost text = key@;
                std::mem::swap(&mut items, &mut self.items);
                items[i] = (key, value);
                assert(items@.map_values(|e: (String, V)| (e.0@, e.1)) =~= before.update(
                    i as int,
                    (text, value),
                ));
                self.items = items;
            },
            None => {
                let ghost text = key@;
                let ghost after = before.push((text, value));
                std::mem::swap(&mut items, &mut self.items);
                items.push((key, value));
                proof {
                    assert(items@.map_values(|e: (String, V)| (e.0@, e.1)) =~= after);
                    assert(after.drop_last() =~= before);
                    assert forall|a: int, b: int| 0 <= a < b < after.len() implies (
                    #[trigger] after[a]).0 != (#[trigger] after[b]).0 by {
                        if b < before.len() {
                            assert(before[a].0 != before[b].0);
                        } else {
                            assert(before[a].0 != text);
                        }
                    }
                }
                self.items = items;
            },
        }
    }

    /// Take a key out with its value, if it is there.
    pub fn take(&mut self, key: &str) -> (r: Option<V>)
        ensures
            final(self)@ == old(self)@.remove(key@),
            match r {
                Some(v) => old(self)@.dom().contains(key@) && v == old(self)@[key@],
                None => !old(self)@.dom().contains(key@),
            },
    {
        proof {
            use_type_invariant(&*self);
            lemma_map_of_domain(self.entries(), key@);
        }
        let ghost before = self.entries();
        match self.position(key) {
            Some(i) => {
                proof {
                    lemma_map_of_remove(before, i as int);
                    lemma_map_of_entry(before, i as int);
                }
                let mut items: Vec<(String, V)> = Vec::new();
                std::mem::swap(&mut items, &mut self.items);
                let (_, value): (String, V) = items.remove(i);
                assert(items@.map_values(|e: (String, V)| (e.0@, e.1)) =~= before.remove(
                    i as int,
                ));
                self.items = items;
                Some(value)
            },
            None => {
                assert(self@ =~= old(self)@.remove(key@));
                None
            },
        }
    }

    /// Drop a key; dropping what is not there changes nothing.
    pub fn remove(&mut self, key: &str)
        ensures
            final(self)@ == old(self)@.remove(key@),
    {
        let _ = self.take(key);
    }
}

/// The value two levels down in a map of maps.
pub open spec fn nested<V>(
    map: Map<Seq<char>, StringMap<V>>,
    outer: Seq<char>,
    inner: Seq<char>,
) -> Option<V> {
    if map.dom().contains(outer) && map[outer]@.dom().contains(inner) {
        Some(map[outer]@[inner])
    } else {
        None
    }
}

/// The value two levels down in a map of maps, if it is there.
pub fn get_nested<'a, V>(map: &'a StringMap<StringMap<V>>, outer: &str, inner: &str) -> (r: Option<
    &'a V,
>)
    ensures
        match r {
            Some(v) => nested(map@, outer@, inner@) == Some(*v),
            None => nested(map@, outer@, inner@) is None,
        },
{
    match map.get(outer) {
        Some(m) => m.get(inner),
        None => None,
    }
}

/// Set the value two levels down in a map of maps.
pub fn set_nested<V>(map: &mut StringMap<StringMap<V>>, outer: &str, inner: String, value: V)
    ensures
        forall|o: Seq<char>, i: Seq<char>|
            #[trigger] nested(final(map)@, o, i) == (if o == outer@ && i == inner@ {
                Some(value)
            } else {
                nested(old(map)@, o, i)
            }),
{
    let mut m: StringMap<V> = match map.take(outer) {
        Some(m) => m,
        None => StringMap::new(),
    };
    m.insert(inner, value);
    map.insert(outer.to_owned(), m);
}

} // verus!
