//! A map from strings to strings: a line's properties, the open documents.
use vstd::prelude::*;
use vstd::string::*;
use crate::text::str_eq;

verus! {

/// A map from strings to strings, like `HashMap<String, String>`.
pub struct StringMap {
    entries: Vec<(String, String)>,
}

/// The map that a list of `(key, value)` entries stands for, later entries winning.
pub open spec fn entries_map(entries: Seq<(String, String)>) -> Map<Seq<char>, Seq<char>>
    decreases entries.len(),
{
    if entries.len() == 0 {
        Map::empty()
    } else {
        entries_map(entries.drop_last()).insert(entries.last().0@, entries.last().1@)
    }
}

proof fn lemma_entries_map_key(entries: Seq<(String, String)>, k: Seq<char>, i: int)
    requires
        0 <= i <= entries.len(),
        forall|j: int| i <= j < entries.len() ==> (#[trigger] entries[j]).0@ != k,
    ensures
        entries_map(entries).contains_key(k) == entries_map(entries.take(i)).contains_key(k),
        entries_map(entries).contains_key(k) ==> entries_map(entries)[k] == entries_map(
            entries.take(i),
        )[k],
    decreases entries.len() - i,
{
    if i < entries.len() {
        assert(entries.drop_last().take(i) == entries.take(i));
        assert forall|j: int| i <= j < entries.drop_last().len() implies (
        #[trigger] entries.drop_last()[j]).0@ != k by {
            assert(entries.drop_last()[j] == entries[j]);
        }
        lemma_entries_map_key(entries.drop_last(), k, i);
    } else {
        assert(entries.take(i) == entries);
    }
}

/// Two maps agree on every key but `k`.
pub open spec fn agree_except(
    m1: Map<Seq<char>, Seq<char>>,
    m2: Map<Seq<char>, Seq<char>>,
    k: Seq<char>,
) -> bool {
    forall|k2: Seq<char>|
        k2 != k ==> (#[trigger] m1.contains_key(k2) == m2.contains_key(k2) && (m1.contains_key(k2)
            ==> m1[k2] == m2[k2]))
}

proof fn lemma_entries_map_contains(entries: Seq<(String, String)>, k: Seq<char>)
    ensures
        entries_map(entries).contains_key(k) <==> exists|j: int|
            0 <= j < entries.len() && (#[trigger] entries[j]).0@ == k,
    decreases entries.len(),
{
    if entries.len() > 0 {
        let d = entries.drop_last();
        lemma_entries_map_contains(d, k);
        if exists|j: int| 0 <= j < d.len() && (#[trigger] d[j]).0@ == k {
            let j = choose|j: int| 0 <= j < d.len() && (#[trigger] d[j]).0@ == k;
            assert(entries[j] == d[j]);
        }
        if exists|j: int| 0 <= j < entries.len() && (#[trigger] entries[j]).0@ == k {
            let j = choose|j: int| 0 <= j < entries.len() && (#[trigger] entries[j]).0@ == k;
            if j < entries.len() - 1 {
                assert(d[j] == entries[j]);
            }
        }
    }
}

proof fn lemma_remove_entry(entries: Seq<(String, String)>, i: int)
    requires
        0 <= i < entries.len(),
    ensures
        agree_except(entries_map(entries.remove(i)), entries_map(entries), entries[i].0@),
    decreases entries.len(),
{
    let k = entries[i].0@;
    if i == entries.len() - 1 {
        assert(entries.remove(i) == entries.drop_last());
    } else {
        let d = entries.drop_last();
        lemma_remove_entry(d, i);
        assert(entries.remove(i).drop_last() == d.remove(i));
        assert(entries.remove(i).last() == entries.last());
        assert(d[i] == entries[i]);
    }
}

impl View for StringMap {
    type V = Map<Seq<char>, Seq<char>>;

    closed spec fn view(&self) -> Map<Seq<char>, Seq<char>> {
        entries_map(self.entries@)
    }
}

impl StringMap {
    /// An empty map.
    pub fn new() -> (m: StringMap)
        ensures
            m@ == Map::<Seq<char>, Seq<char>>::empty(),
    {
        StringMap { entries: Vec::new() }
    }

    /// Sets `key` to `value`, like `HashMap::insert`.
    pub fn insert(&mut self, key: String, value: String)
        ensures
            final(self)@ == old(self)@.insert(key@, value@),
    {
        self.remove(key.as_str());
        let ghost before = self.entries@;
        self.entries.push((key, value));
        assert(self.entries@.drop_last() == before);
        assert(self@ =~= old(self)@.insert(key@, value@));
    }

    fn position(&self, key: &str) -> (r: Option<usize>)
        ensures
            match r {
                Some(i) => i < self.entries@.len() && self.entries@[i as int].0@ == key@,
                None => forall|j: int|
                    0 <= j < self.entries@.len() ==> (#[trigger] self.entries@[j]).0@ != key@,
            },
    {
        let mut i: usize = 0;
        while i < self.entries.len()
            invariant
                i <= self.entries@.len(),
                forall|j: int| 0 <= j < i ==> (#[trigger] self.entries@[j]).0@ != key@,
            decreases self.entries@.len() - i,
        {
            if str_eq(self.entries[i].0.as_str(), key) {
                return Some(i);
            }
            i = i + 1;
        }
        None
    }

    /// Removes `key` and its value, like `HashMap::remove`.
    pub fn remove(&mut self, key: &str)
        ensures
            final(self)@ == old(self)@.remove(key@),
    {
        let ghost initial = self.entries@;
        loop
            invariant
                agree_except(entries_map(self.entries@), entries_map(initial), key@),
                initial == old(self).entries@,
            ensures
                !entries_map(self.entries@).contains_key(key@),
            decreases self.entries@.len(),
        {
            match self.position(key) {
                Some(i) => {
                    let ghost before = self.entries@;
                    proof {
                        lemma_remove_entry(before, i as int);
                    }
                    self.entries.remove(i);
                },
                None => {
                    proof {
                        lemma_entries_map_contains(self.entries@, key@);
                    }
                    break;
                },
            }
        }
        assert(self@ =~= old(self)@.remove(key@));
    }

    /// The value for `key`, like `HashMap::get`.
    pub fn get(&self, key: &str) -> (r: Option<&String>)
        ensures
            match r {
                Some(v) => self@.contains_key(key@) && self@[key@] == v@,
                None => !self@.contains_key(key@),
            },
    {
        let mut i: usize = self.entries.len();
        while i > 0
            invariant
                i <= self.entries@.len(),
                forall|j: int| i <= j < self.entries@.len() ==> (#[trigger] self.entries@[j]).0@
                    != key@,
            decreases i,
        {
            if str_eq(self.entries[i - 1].0.as_str(), key) {
                proof {
                    let e = self.entries@;
                    lemma_entries_map_key(e, key@, i as int);
                    assert(e.take(i as int).drop_last() == e.take(i - 1));
                    assert(e.take(i as int).last() == e[i - 1]);
                }
                return Some(&self.entries[i - 1].1);
            }
            i = i - 1;
        }
        proof {
            lemma_entries_map_key(self.entries@, key@, 0);
            assert(self.entries@.take(0).len() == 0);
        }
        None
    }

    /// Whether `key` has a value, like `HashMap::contains_key`.
    pub fn contains_key(&self, key: &str) -> (b: bool)
        ensures
            b == self@.contains_key(key@),
    {
        self.get(key).is_some()
    }
}

} // verus!
