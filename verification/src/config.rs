//! The configuration store: a mapping from string keys to string values,
//! held as a vector of entries with pairwise distinct keys and modelled
//! in specifications as a `Map<Seq<char>, Seq<char>>`.

use vstd::prelude::*;

verus! {

/// The view of a sequence of owned entries: each `(String, String)` pair
/// as the pair of its character sequences.
pub open spec fn entry_views(entries: Seq<(String, String)>) -> Seq<(Seq<char>, Seq<char>)> {
    entries.map(|i: int, e: (String, String)| (e.0@, e.1@))
}

/// No key is carried by two entries.
pub open spec fn keys_unique(entries: Seq<(Seq<char>, Seq<char>)>) -> bool {
    forall|i: int, j: int|
        0 <= i < j < entries.len() ==> (#[trigger] entries[i]).0 != (#[trigger] entries[j]).0
}

/// The mapping that a sequence of entries denotes: each entry inserted in
/// order, a later entry overwriting an earlier one with the same key.
pub open spec fn map_of(entries: Seq<(Seq<char>, Seq<char>)>) -> Map<Seq<char>, Seq<char>>
    decreases entries.len(),
{
    if entries.len() == 0 {
        Map::empty()
    } else {
        map_of(entries.drop_last()).insert(entries.last().0, entries.last().1)
    }
}

/// The denoted mapping holds a key exactly when some entry carries it:
/// after `Repository::new(items)`, `has(k)` answers membership of `k`
/// among the keys of `items`.
pub proof fn lemma_map_of_contains(entries: Seq<(Seq<char>, Seq<char>)>, k: Seq<char>)
    ensures
        map_of(entries).contains_key(k) <==> exists|i: int|
            0 <= i < entries.len() && (#[trigger] entries[i]).0 == k,
    decreases entries.len(),
{
    if entries.len() > 0 {
        lemma_map_of_contains(entries.drop_last(), k);
        if entries.last().0 == k {
            assert(entries[entries.len() - 1].0 == k);
        } else if map_of(entries.drop_last()).contains_key(k) {
            let i = choose|i: int|
                0 <= i < entries.drop_last().len() && (#[trigger] entries.drop_last()[i]).0 == k;
            assert(entries[i].0 == k);
        } else if exists|i: int| 0 <= i < entries.len() && (#[trigger] entries[i]).0 == k {
            let i = choose|i: int| 0 <= i < entries.len() && (#[trigger] entries[i]).0 == k;
            assert(entries.drop_last()[i].0 == k);
        }
    }
}

/// The denoted mapping assigns to a key the value of the last entry that
/// carries it: after `Repository::new(items)`, `get` returns for each key
/// the value that `items` gives it.
pub proof fn lemma_map_of_value(entries: Seq<(Seq<char>, Seq<char>)>, i: int)
    requires
        0 <= i < entries.len(),
        forall|j: int| i < j < entries.len() ==> (#[trigger] entries[j]).0 != entries[i].0,
    ensures
        map_of(entries).contains_key(entries[i].0),
        map_of(entries)[entries[i].0] == entries[i].1,
    decreases entries.len(),
{
    if i == entries.len() - 1 {
    } else {
        assert(entries[entries.len() - 1].0 != entries[i].0);
        assert(entries.drop_last()[i] == entries[i]);
        assert(forall|j: int|
            i < j < entries.drop_last().len() ==> (#[trigger] entries.drop_last()[j]).0
                != entries.drop_last()[i].0);
        lemma_map_of_value(entries.drop_last(), i);
    }
}

/// A contract for configuration management: a store of string keys and
/// string values, modelled as a mapping from character sequences to
/// character sequences.
pub trait ConfigContract {
    /// The mapping this store holds.
    spec fn model(&self) -> Map<Seq<char>, Seq<char>>;

    /// Checks if a given key exists in the configuration.
    fn has(&self, key: &str) -> (r: bool)
        ensures
            r == self.model().contains_key(key@),
    ;

    /// Gets the value associated with the given key in the configuration.
    fn get(&self, key: &str) -> (r: Option<&str>)
        ensures
            match r {
                Some(v) => self.model().contains_key(key@) && v@ == self.model()[key@],
                None => !self.model().contains_key(key@),
            },
    ;

    /// Sets the value associated with the given key in the configuration,
    /// overwriting any earlier value of that key.
    fn set(&mut self, key: &str, value: &str)
        ensures
            final(self).model() == old(self).model().insert(key@, value@),
    ;

    /// Gets all configuration items: entries with pairwise distinct keys
    /// that denote exactly the held mapping. No order is promised.
    fn all(&self) -> (r: &Vec<(String, String)>)
        ensures
            keys_unique(entry_views(r@)),
            map_of(entry_views(r@)) == self.model(),
    ;
}

/// A configuration repository that implements the ConfigContract.
pub struct Repository {
    items: Vec<(String, String)>,
}

/// Compares two string slices by their character sequences.
fn str_eq(a: &str, b: &str) -> (r: bool)
    ensures
        r == (a@ == b@),
{
    let a_owned: String = a.to_owned();
    let b_owned: String = b.to_owned();
    a_owned == b_owned
}

/// The index of the first entry that carries `key`, if any entry does.
fn index_of_key(items: &Vec<(String, String)>, key: &str) -> (r: Option<usize>)
    ensures
        match r {
            Some(i) => i < items@.len() && items@[i as int].0@ == key@,
            None => forall|j: int| 0 <= j < items@.len() ==> (#[trigger] items@[j]).0@ != key@,
        },
{
    let n = items.len();
    let mut idx: usize = 0;
    while idx < n
        invariant
            n == items@.len(),
            idx <= n,
            forall|j: int| 0 <= j < idx ==> (#[trigger] items@[j]).0@ != key@,
        decreases n - idx,
    {
        if str_eq(items[idx].0.as_str(), key) {
            return Some(idx);
        }
        idx += 1;
    }
    None
}

impl Repository {
    #[verifier::type_invariant]
    spec fn wf(&self) -> bool {
        keys_unique(entry_views(self.items@))
    }

    /// Constructs a new Repository holding the mapping that `items`
    /// denotes: each pair inserted in order, a later pair overwriting an
    /// earlier one with the same key.
    pub fn new(items: Vec<(String, String)>) -> (r: Self)
        ensures
            r.model() == map_of(entry_views(items@)),
    {
        let mut r = Repository { items: Vec::new() };
        let n = items.len();
        let mut idx: usize = 0;
        proof {
            assert(entry_views(items@).take(0) =~= Seq::<(Seq<char>, Seq<char>)>::empty());
        }
        while idx < n
            invariant
                n == items@.len(),
                idx <= n,
                r.model() == map_of(entry_views(items@).take(idx as int)),
            decreases n - idx,
        {
            let entry = &items[idx];
            r.set(entry.0.as_str(), entry.1.as_str());
            proof {
                let views = entry_views(items@);
                assert(views.take(idx + 1).drop_last() =~= views.take(idx as int));
                assert(views.take(idx + 1).last() == (items@[idx as int].0@, items@[idx as int].1@));
            }
            idx += 1;
        }
        proof {
            assert(entry_views(items@).take(n as int) =~= entry_views(items@));
        }
        r
    }
}

impl ConfigContract for Repository {
    closed spec fn model(&self) -> Map<Seq<char>, Seq<char>> {
        map_of(entry_views(self.items@))
    }

    /// Checks if a given key exists in the configuration.
    fn has(&self, key: &str) -> (r: bool)
        ensures
            r == self.model().contains_key(key@),
    {
        let found = index_of_key(&self.items, key);
        proof {
            lemma_map_of_contains(entry_views(self.items@), key@);
            if let Some(i) = found {
                assert(entry_views(self.items@)[i as int].0 == key@);
            }
        }
        found.is_some()
    }

    /// Gets the value associated with the given key in the configuration.
    fn get(&self, key: &str) -> (r: Option<&str>)
        ensures
            match r {
                Some(v) => self.model().contains_key(key@) && v@ == self.model()[key@],
                None => !self.model().contains_key(key@),
            },
    {
        proof {
            use_type_invariant(&*self);
        }
        match index_of_key(&self.items, key) {
            Some(i) => {
                proof {
                    let views = entry_views(self.items@);
                    assert(views[i as int].0 == key@);
                    lemma_map_of_value(views, i as int);
                }
                Some(self.items[i].1.as_str())
            },
            None => {
                proof {
                    lemma_map_of_contains(entry_views(self.items@), key@);
                }
                None
            },
        }
    }

    /// Sets the value associated with the given key in the configuration,
    /// overwriting any earlier value of that key.
    fn set(&mut self, key: &str, value: &str)
        ensures
            final(self).model() == old(self).model().insert(key@, value@),
    {
        proof {
            use_type_invariant(&*self);
        }
        let mut items: Vec<(String, String)> = Vec::new();
        core::mem::swap(&mut items, &mut self.items);
        match index_of_key(&items, key) {
            Some(i) => {
                let ghost old_views = entry_views(items@);
                items[i] = (key.to_owned(), value.to_owned());
                proof {
                    let views = entry_views(items@);
                    assert(views =~= old_views.update(i as int, (key@, value@)));
                    assert(old_views[i as int].0 == key@);
                    assert(old_views.update(i as int, (key@, value@)) == old_views.update(
                        i as int,
                        (old_views[i as int].0, value@),
                    ));
                    lemma_map_of_update(old_views, i as int, value@);
                    assert(keys_unique(views));
                }
            },
            None => {
                let ghost old_views = entry_views(items@);
                items.push((key.to_owned(), value.to_owned()));
                proof {
                    let views = entry_views(items@);
                    assert(views =~= old_views.push((key@, value@)));
                    assert(views.drop_last() =~= old_views);
                    assert(keys_unique(views));
                }
            },
        }
        self.items = items;
    }

    /// Gets all configuration items: entries with pairwise distinct keys
    /// that denote exactly the held mapping. No order is promised.
    fn all(&self) -> (r: &Vec<(String, String)>)
        ensures
            keys_unique(entry_views(r@)),
            map_of(entry_views(r@)) == self.model(),
    {
        proof {
            use_type_invariant(&*self);
        }
        &self.items
    }
}

/// Setting the same key to the same value twice leaves the same mapping
/// as setting it once: a repeated `set(k, v)` changes nothing observable.
pub proof fn lemma_set_idempotent(m: Map<Seq<char>, Seq<char>>, k: Seq<char>, v: Seq<char>)
    ensures
        m.insert(k, v).insert(k, v) == m.insert(k, v),
{
    assert(m.insert(k, v).insert(k, v) =~= m.insert(k, v));
}

/// Setting a key twice keeps only the later value: after `set(k, v1)` and
/// then `set(k, v2)`, `get(k)` returns `v2`, and the mapping is the one
/// that `set(k, v2)` alone would have left.
pub proof fn lemma_set_overwrite(
    m: Map<Seq<char>, Seq<char>>,
    k: Seq<char>,
    v1: Seq<char>,
    v2: Seq<char>,
)
    ensures
        m.insert(k, v1).insert(k, v2) == m.insert(k, v2),
        m.insert(k, v1).insert(k, v2).contains_key(k),
        m.insert(k, v1).insert(k, v2)[k] == v2,
{
    assert(m.insert(k, v1).insert(k, v2) =~= m.insert(k, v2));
}

/// What `all` lists is exactly the held mapping: every listed entry is a
/// pair of the mapping, and every key of the mapping is carried by some
/// listed entry — with pairwise distinct keys, no entry is lost and none
/// is duplicated, whatever `set` calls built the mapping.
pub proof fn lemma_all_entries(entries: Seq<(Seq<char>, Seq<char>)>)
    requires
        keys_unique(entries),
    ensures
        forall|i: int|
            0 <= i < entries.len() ==> map_of(entries).contains_key((#[trigger] entries[i]).0)
                && map_of(entries)[entries[i].0] == entries[i].1,
        forall|k: Seq<char>|
            #[trigger] map_of(entries).contains_key(k) ==> exists|i: int|
                0 <= i < entries.len() && (#[trigger] entries[i]).0 == k,
{
    assert forall|i: int|
        0 <= i < entries.len() implies map_of(entries).contains_key((#[trigger] entries[i]).0)
        && map_of(entries)[entries[i].0] == entries[i].1 by {
        lemma_map_of_value(entries, i);
    }
    assert forall|k: Seq<char>| #[trigger]
        map_of(entries).contains_key(k) implies exists|i: int|
        0 <= i < entries.len() && (#[trigger] entries[i]).0 == k by {
        lemma_map_of_contains(entries, k);
    }
}

/// Updating the entry of a key in place denotes the same mapping as
/// inserting that key anew.
pub proof fn lemma_map_of_update(entries: Seq<(Seq<char>, Seq<char>)>, i: int, v: Seq<char>)
    requires
        keys_unique(entries),
        0 <= i < entries.len(),
    ensures
        map_of(entries.update(i, (entries[i].0, v))) == map_of(entries).insert(entries[i].0, v),
    decreases entries.len(),
{
    let k = entries[i].0;
    let updated = entries.update(i, (k, v));
    if i == entries.len() - 1 {
        assert(updated.drop_last() =~= entries.drop_last());
        assert(map_of(entries).insert(entries.last().0, v) =~= map_of(entries.drop_last()).insert(
            entries.last().0,
            v,
        ));
    } else {
        assert(updated.drop_last() =~= entries.drop_last().update(i, (k, v)));
        assert(entries.drop_last()[i] == entries[i]);
        assert(keys_unique(entries.drop_last())) by {
            assert(forall|a: int, b: int|
                0 <= a < b < entries.drop_last().len() ==> (#[trigger] entries.drop_last()[a],
                #[trigger] entries.drop_last()[b]) == (entries[a], entries[b]));
        }
        lemma_map_of_update(entries.drop_last(), i, v);
        let last = entries.last();
        assert(last.0 != k);
        assert(map_of(entries.drop_last()).insert(k, v).insert(last.0, last.1) =~= map_of(
            entries.drop_last(),
        ).insert(last.0, last.1).insert(k, v));
        assert(updated.last() == last);
    }
}

} // verus!
