//! Tables and sets keyed by name.
use crate::text::{text_eq, texts};
use vstd::prelude::*;

verus! {

/// A table from names to values. No name occurs twice.
#[derive(Debug)]
pub struct NameMap<V> {
    entries: Vec<(String, V)>,
}

/// The names of a list of entries, in order.
spec fn entry_names<V>(entries: Seq<(String, V)>) -> Seq<Seq<char>> {
    entries.map_values(|e: (String, V)| e.0@)
}

/// The table that a list of entries stands for.
spec fn entry_map<V: View>(entries: Seq<(String, V)>) -> Map<Seq<char>, V::V> {
    Map::new(
        |n: Seq<char>| entry_names(entries).contains(n),
        |n: Seq<char>| entries[entry_names(entries).index_of(n)].1@,
    )
}

impl<V> NameMap<V> {
    #[verifier::type_invariant]
    spec fn distinct_names(self) -> bool {
        entry_names(self.entries@).no_duplicates()
    }

    /// The names of the table in the order of its entries.
    pub closed spec fn names(self) -> Seq<Seq<char>> {
        entry_names(self.entries@)
    }
}

impl<V: View> View for NameMap<V> {
    type V = Map<Seq<char>, V::V>;

    closed spec fn view(&self) -> Map<Seq<char>, V::V> {
        entry_map(self.entries@)
    }
}

/// In a list without repeated names, an entry is found under its own name.
proof fn lemma_entry<V: View>(entries: Seq<(String, V)>, i: int)
    requires
        entry_names(entries).no_duplicates(),
        0 <= i < entries.len(),
    ensures
        entry_map(entries).contains_key(entries[i].0@),
        entry_map(entries)[entries[i].0@] == entries[i].1@,
{
    let names = entry_names(entries);
    assert(names[i] == entries[i].0@);
    assert(names.contains(names[i]));
    assert(names[names.index_of(names[i])] == names[i]);
}

impl<V: View> NameMap<V> {
    /// The empty table.
    pub fn new() -> (r: Self)
        ensures
            r@ == Map::<Seq<char>, V::V>::empty(),
    {
        let r = NameMap { entries: Vec::new() };
        assert(r@ =~= Map::<Seq<char>, V::V>::empty());
        r
    }

    /// The number of entries.
    pub fn len(&self) -> (r: usize)
        ensures
            r == self@.len(),
            self@.dom().finite(),
            self.names().len() == r,
            self.names().no_duplicates(),
            self.names().to_set() == self@.dom(),
    {
        proof {
            use_type_invariant(self);
            self.names().unique_seq_to_set();
            assert(self.names().to_set() =~= self@.dom());
        }
        self.entries.len()
    }

    /// Whether the table has no entries.
    pub fn is_empty(&self) -> (r: bool)
        ensures
            r == (self@ == Map::<Seq<char>, V::V>::empty()),
            r == (self@.len() == 0),
    {
        let n = self.len();
        proof {
            if n == 0 {
                assert(self@ =~= Map::<Seq<char>, V::V>::empty());
            } else {
                assert(self@.dom().contains(self.names()[0]));
            }
        }
        n == 0
    }

    /// The position of a name among the entries.
    fn find(&self, name: &str) -> (r: Option<usize>)
        ensures
            r matches Some(i) ==> i < self.entries@.len() && self.entries@[i as int].0@ == name@,
            r is None ==> !self@.contains_key(name@),
    {
        let mut i: usize = 0;
        while i < self.entries.len()
            invariant
                i <= self.entries@.len(),
                forall|k: int| 0 <= k < i ==> (#[trigger] self.entries@[k]).0@ != name@,
            decreases self.entries@.len() - i,
        {
            if text_eq(self.entries[i].0.as_str(), name) {
                return Some(i);
            }
            i = i + 1;
        }
        proof {
            let names = entry_names(self.entries@);
            if names.contains(name@) {
                let k = names.index_of(name@);
                assert(names[k] == self.entries@[k].0@);
            }
        }
        None
    }

    /// The value of a name, if it has one.
    pub fn get(&self, name: &str) -> (r: Option<&V>)
        ensures
            match r {
                Some(v) => self@.contains_key(name@) && self@[name@] == v@,
                None => !self@.contains_key(name@),
            },
    {
        match self.find(name) {
            Some(i) => {
                proof {
                    use_type_invariant(self);
                    lemma_entry(self.entries@, i as int);
                }
                Some(&self.entries[i].1)
            },
            None => None,
        }
    }

    /// Whether a name has a value.
    pub fn contains_key(&self, name: &str) -> (r: bool)
        ensures
            r == self@.contains_key(name@),
    {
        self.get(name).is_some()
    }

    /// The name of the entry at position `i`.
    pub fn name_at(&self, i: usize) -> (r: &String)
        requires
            i < self.names().len(),
        ensures
            r@ == self.names()[i as int],
            self@.contains_key(r@),
    {
        proof {
            use_type_invariant(self);
            lemma_entry(self.entries@, i as int);
        }
        &self.entries[i].0
    }

    /// The value of the entry at position `i`.
    pub fn value_at(&self, i: usize) -> (r: &V)
        requires
            i < self.names().len(),
        ensures
            self@.contains_key(self.names()[i as int]),
            r@ == self@[self.names()[i as int]],
    {
        proof {
            use_type_invariant(self);
            lemma_entry(self.entries@, i as int);
        }
        &self.entries[i].1
    }

    /// Gives a name a value, in place of the one that it had.
    pub fn insert(&mut self, name: String, value: V)
        ensures
            final(self)@ == old(self)@.insert(name@, value@),
    {
        proof {
            use_type_invariant(&*self);
        }
        let found = self.find(name.as_str());
        let mut entries: Vec<(String, V)> = Vec::new();
        std::mem::swap(&mut self.entries, &mut entries);
        let ghost old_entries = entries@;
        let ghost name_text = name@;
        let ghost value_view = value@;
        match found {
            Some(i) => {
                entries.set(i, (name, value));
                proof {
                    assert(entry_names(entries@) =~= entry_names(old_entries));
                }
            },
            None => {
                entries.push((name, value));
                proof {
                    let names = entry_names(old_entries);
                    assert(entry_names(entries@) =~= names.push(name_text));
                    assert forall|a: int, b: int|
                        0 <= a < names.len() + 1 && 0 <= b < names.len() + 1 && a
                            != b implies names.push(name_text)[a] != names.push(name_text)[b] by {
                        if a < names.len() {
                            assert(names.contains(names[a]));
                        }
                        if b < names.len() {
                            assert(names.contains(names[b]));
                        }
                    }
                }
            },
        }
        proof {
            let at: int = match found {
                Some(i) => i as int,
                None => old_entries.len() as int,
            };
            lemma_entry(entries@, at);
            let grown = entry_map(entries@);
            let wanted = entry_map(old_entries).insert(name_text, value_view);
            assert forall|n: Seq<char>| grown.contains_key(n) == wanted.contains_key(n) by {
                if entry_names(old_entries).contains(n) {
                    let k = entry_names(old_entries).index_of(n);
                    assert(entry_names(entries@)[k] == n);
                }
                if entry_names(entries@).contains(n) && n != name_text {
                    let k = entry_names(entries@).index_of(n);
                    assert(k != at);
                    assert(entry_names(old_entries)[k] == n);
                }
            }
            assert forall|n: Seq<char>| grown.contains_key(n) implies grown[n] == wanted[n] by {
                if n != name_text {
                    let k = entry_names(old_entries).index_of(n);
                    assert(entry_names(old_entries).contains(n));
                    assert(entry_names(old_entries)[k] == n);
                    assert(k != at);
                    assert(entries@[k] == old_entries[k]);
                    lemma_entry(entries@, k);
                    lemma_entry(old_entries, k);
                }
            }
            assert(grown =~= wanted);
        }
        self.entries = entries;
    }

    /// Takes over the entries of another table, in place of those that have the
    /// same name.
    pub fn extend(&mut self, other: NameMap<V>)
        ensures
            final(self)@ == old(self)@.union_prefer_right(other@),
    {
        proof {
            use_type_invariant(&other);
        }
        let mut rest = other.entries;
        let ghost wanted = self@.union_prefer_right(other@);
        while rest.len() > 0
            invariant
                entry_names(rest@).no_duplicates(),
                self@.union_prefer_right(entry_map(rest@)) =~= wanted,
            decreases rest@.len(),
        {
            let ghost so_far = self@;
            let ghost all = rest@;
            let (name, value) = rest.remove(0);
            proof {
                let names = entry_names(all);
                assert(entry_names(rest@) =~= names.remove(0));
                lemma_entry(all, 0);
                assert(names[0] == name@);
                assert forall|n: Seq<char>| #[trigger]
                    entry_map(all).contains_key(n) <==> n == name@ || entry_map(rest@).contains_key(
                        n,
                    ) by {
                    if names.contains(n) && n != name@ {
                        let k = names.index_of(n);
                        assert(names[k] == n);
                        assert(entry_names(rest@)[k - 1] == n);
                    }
                    if entry_names(rest@).contains(n) {
                        let k = entry_names(rest@).index_of(n);
                        assert(names[k + 1] == n);
                    }
                }
                assert forall|n: Seq<char>| #[trigger]
                    entry_map(rest@).contains_key(n) implies n != name@ && entry_map(rest@)[n]
                    == entry_map(all)[n] by {
                    let k = entry_names(rest@).index_of(n);
                    assert(entry_names(rest@)[k] == n);
                    assert(names[k + 1] == n);
                    lemma_entry(all, k + 1);
                    lemma_entry(rest@, k);
                }
                assert(so_far.insert(name@, value@).union_prefer_right(entry_map(rest@))
                    =~= so_far.union_prefer_right(entry_map(all)));
            }
            self.insert(name, value);
        }
        assert(self@.union_prefer_right(entry_map(rest@)) =~= self@);
    }

    /// Takes a name out of the table.
    pub fn remove(&mut self, name: &str)
        ensures
            final(self)@ == old(self)@.remove(name@),
    {
        proof {
            use_type_invariant(&*self);
        }
        match self.find(name) {
            Some(i) => {
                let mut entries: Vec<(String, V)> = Vec::new();
                std::mem::swap(&mut self.entries, &mut entries);
                let ghost old_entries = entries@;
                let _removed = entries.remove(i);
                proof {
                    let at = i as int;
                    let old_names = entry_names(old_entries);
                    let names = entry_names(entries@);
                    assert(names =~= old_names.remove(at));
                    let shrunk = entry_map(entries@);
                    let wanted = entry_map(old_entries).remove(name@);
                    assert forall|n: Seq<char>|
                        shrunk.contains_key(n) == wanted.contains_key(n) by {
                        if old_names.contains(n) && n != name@ {
                            let k = old_names.index_of(n);
                            assert(old_names[k] == n);
                            let j = if k < at { k } else { k - 1 };
                            assert(names[j] == n);
                        }
                        if names.contains(n) {
                            let j = names.index_of(n);
                            assert(names[j] == n);
                            let k = if j < at { j } else { j + 1 };
                            assert(old_names[k] == n);
                            assert(old_names[at] == name@);
                        }
                    }
                    assert forall|n: Seq<char>| shrunk.contains_key(n) implies shrunk[n]
                        == wanted[n] by {
                        let j = names.index_of(n);
                        assert(names.contains(n));
                        assert(names[j] == n);
                        let k = if j < at { j } else { j + 1 };
                        assert(entries@[j] == old_entries[k]);
                        lemma_entry(entries@, j);
                        lemma_entry(old_entries, k);
                    }
                    assert(shrunk =~= wanted);
                }
                self.entries = entries;
            },
            None => {
                assert(self@.remove(name@) =~= self@);
            },
        }
    }
}

/// Whether cloning a value keeps what it holds.
pub open spec fn clone_keeps_contents<V: View + Clone>() -> bool {
    forall|a: V, b: V| #[trigger] call_ensures(V::clone, (&a,), b) ==> b@ == a@
}

impl<V: View + Clone> NameMap<V> {
    /// A table with the same entries.
    pub fn duplicate(&self) -> (r: Self)
        requires
            clone_keeps_contents::<V>(),
        ensures
            r@ == self@,
    {
        proof {
            use_type_invariant(self);
        }
        let mut entries: Vec<(String, V)> = Vec::new();
        let mut i: usize = 0;
        while i < self.entries.len()
            invariant
                clone_keeps_contents::<V>(),
                i <= self.entries@.len(),
                entries@.len() == i,
                forall|k: int|
                    0 <= k < i ==> (#[trigger] entries@[k]).0@ == self.entries@[k].0@
                        && entries@[k].1@ == self.entries@[k].1@,
            decreases self.entries@.len() - i,
        {
            entries.push((self.entries[i].0.clone(), self.entries[i].1.clone()));
            i = i + 1;
        }
        proof {
            assert(entry_names(entries@) =~= entry_names(self.entries@));
            assert forall|n: Seq<char>| #[trigger]
                entry_map(entries@).contains_key(n) implies entry_map(entries@)[n] == entry_map(
                self.entries@,
            )[n] by {
                let k = entry_names(entries@).index_of(n);
                assert(entry_names(entries@)[k] == n);
                lemma_entry(entries@, k);
                lemma_entry(self.entries@, k);
            }
            assert(entry_map(entries@) =~= entry_map(self.entries@));
        }
        NameMap { entries }
    }
}

/// A set of names.
#[derive(Debug)]
pub struct NameSet {
    items: Vec<String>,
}

impl View for NameSet {
    type V = Set<Seq<char>>;

    closed spec fn view(&self) -> Set<Seq<char>> {
        texts(self.items@).to_set()
    }
}

impl NameSet {
    #[verifier::type_invariant]
    spec fn distinct_items(self) -> bool {
        texts(self.items@).no_duplicates()
    }

    /// The empty set.
    pub fn new() -> (r: Self)
        ensures
            r@ == Set::<Seq<char>>::empty(),
    {
        let r = NameSet { items: Vec::new() };
        assert(r@ =~= Set::<Seq<char>>::empty());
        r
    }

    /// Whether the set holds `name`.
    pub fn contains(&self, name: &str) -> (r: bool)
        ensures
            r == self@.contains(name@),
    {
        let mut i: usize = 0;
        while i < self.items.len()
            invariant
                i <= self.items@.len(),
                forall|k: int| 0 <= k < i ==> (#[trigger] self.items@[k])@ != name@,
            decreases self.items@.len() - i,
        {
            if text_eq(self.items[i].as_str(), name) {
                assert(texts(self.items@)[i as int] == name@);
                return true;
            }
            i = i + 1;
        }
        proof {
            if texts(self.items@).contains(name@) {
                let k = texts(self.items@).index_of(name@);
                assert(texts(self.items@)[k] == self.items@[k]@);
            }
        }
        false
    }

    /// Adds `name` to the set.
    pub fn insert(&mut self, name: String)
        ensures
            final(self)@ == old(self)@.insert(name@),
    {
        proof {
            use_type_invariant(&*self);
        }
        if self.contains(name.as_str()) {
            assert(self@.insert(name@) =~= self@);
        } else {
            let ghost old_texts = texts(self.items@);
            let ghost text = name@;
            let mut items: Vec<String> = Vec::new();
            std::mem::swap(&mut self.items, &mut items);
            items.push(name);
            proof {
                assert(texts(items@) =~= old_texts.push(text));
                old_texts.lemma_push_to_set_commute(text);
                assert forall|a: int, b: int|
                    0 <= a < old_texts.len() + 1 && 0 <= b < old_texts.len() + 1 && a
                        != b implies old_texts.push(text)[a] != old_texts.push(text)[b] by {
                    if a < old_texts.len() {
                        assert(old_texts.contains(old_texts[a]));
                    }
                    if b < old_texts.len() {
                        assert(old_texts.contains(old_texts[b]));
                    }
                }
            }
            self.items = items;
        }
    }

    /// The set is finite.
    pub proof fn lemma_finite(&self)
        ensures
            self@.finite(),
    {
        vstd::seq_lib::seq_to_set_is_finite(texts(self.items@));
    }

    /// The names of the set, each once.
    pub fn into_names(self) -> (r: Vec<String>)
        ensures
            texts(r@).no_duplicates(),
            texts(r@).to_set() == self@,
    {
        proof {
            use_type_invariant(&self);
        }
        self.items
    }
}

} // verus!
