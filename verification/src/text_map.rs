//! Maps from texts to values.

use crate::text::find;
use vstd::prelude::*;

verus! {

/// Values by name. The names are kept in order.
#[derive(Debug)]
pub struct TextMap<A> {
    names: Vec<String>,
    values: Vec<A>,
}

impl<A> View for TextMap<A> {
    type V = Map<Seq<char>, A>;

    closed spec fn view(&self) -> Map<Seq<char>, A> {
        entries_of(crate::text::texts(self.names@), self.values@)
    }
}

/// The entries that two parallel lists stand for.
pub open spec fn entries_of<A>(names: Seq<Seq<char>>, values: Seq<A>) -> Map<Seq<char>, A> {
    Map::new(|n: Seq<char>| names.contains(n), |n: Seq<char>| values[names.index_of(n)])
}

/// `list` holds exactly the names of a map, each once and in order.
pub open spec fn lists_names<A>(list: Seq<Seq<char>>, map: Map<Seq<char>, A>) -> bool {
    &&& crate::text::sorted_distinct(list)
    &&& forall|n: Seq<char>| #[trigger] list.contains(n) <==> map.contains_key(n)
}

/// The names of a map, in order.
pub open spec fn names_of<A>(map: Map<Seq<char>, A>) -> Seq<Seq<char>> {
    choose|list: Seq<Seq<char>>| #[trigger] lists_names(list, map)
}

impl<A> TextMap<A> {
    /// The names are sorted, none occurs twice, and each has a value.
    #[verifier::type_invariant]
    spec fn wf(&self) -> bool {
        &&& crate::text::sorted_distinct(crate::text::texts(self.names@))
        &&& self.names.len() == self.values.len()
    }

    /// A map without entries.
    pub fn new() -> (r: Self)
        ensures
            r@ == Map::<Seq<char>, A>::empty(),
    {
        let names: Vec<String> = Vec::new();
        assert(crate::text::texts(names@) =~= Seq::<Seq<char>>::empty());
        let r = TextMap { names, values: Vec::new() };
        assert(r@ =~= Map::<Seq<char>, A>::empty());
        r
    }

    /// Enters a value, in place of one of the same name. Returns whether there
    /// was one.
    pub fn insert(&mut self, name: &str, value: A) -> (r: bool)
        ensures
            final(self)@ == old(self)@.insert(name@, value),
            r == old(self)@.contains_key(name@),
    {
        let mut taken: TextMap<A> = TextMap::new();
        core::mem::swap(&mut taken, self);
        proof {
            use_type_invariant(&taken);
        }
        let TextMap { names: mut names, values: mut values } = taken;
        let ghost before = crate::text::texts(names@);
        let ghost had = values@;
        match find(names.as_slice(), name) {
            Ok(i) => {
                values.set(i, value);
                proof {
                    lemma_replaced(before, had, i as int, value);
                }
                *self = TextMap { names, values };
                true
            },
            Err(p) => {
                names.insert(p, name.to_owned());
                values.insert(p, value);
                proof {
                    assert(crate::text::texts(names@) =~= before.insert(p as int, name@));
                    crate::text::lemma_insert_keeps_sorted(before, p as int, name@);
                    lemma_inserted(before, had, p as int, name@, value);
                }
                *self = TextMap { names, values };
                false
            },
        }
    }

    /// The value of a name, if it has one.
    pub fn get(&self, name: &str) -> (r: Option<&A>)
        ensures
            match r {
                Some(v) => self@.contains_key(name@) && *v == self@[name@],
                None => !self@.contains_key(name@),
            },
    {
        proof {
            use_type_invariant(self);
        }
        match find(self.names.as_slice(), name) {
            Ok(i) => Some(&self.values[i]),
            Err(_) => None,
        }
    }

    /// Whether a name has a value.
    pub fn contains_key(&self, name: &str) -> (r: bool)
        ensures
            r == self@.contains_key(name@),
    {
        self.get(name).is_some()
    }

    /// The names, in order.
    pub fn keys(&self) -> (r: Vec<&str>)
        ensures
            crate::text::words(r@) == names_of(self@),
            lists_names(crate::text::words(r@), self@),
    {
        proof {
            use_type_invariant(self);
        }
        let mut list: Vec<&str> = Vec::new();
        let mut i: usize = 0;
        while i < self.names.len()
            invariant
                i <= self.names.len(),
                list.len() == i,
                forall|k: int| 0 <= k < i ==> (#[trigger] list[k])@ == self.names[k]@,
            decreases self.names.len() - i,
        {
            let name: &str = self.names[i].as_str();
            list.push(name);
            i = i + 1;
        }
        proof {
            let names = crate::text::words(list@);
            assert(names =~= crate::text::texts(self.names@));
            assert(lists_names(names, self@));
            let other = names_of(self@);
            assert(lists_names(other, self@));
            assert forall|n: Seq<char>| #[trigger] other.contains(n) <==> names.contains(n) by {}
            crate::text::lemma_sorted_distinct_unique(other, names);
        }
        list
    }

    /// How many names have a value.
    pub fn len(&self) -> (r: usize)
        ensures
            self@.dom().finite(),
            r == self@.len(),
    {
        proof {
            use_type_invariant(self);
            let list = crate::text::texts(self.names@);
            assert forall|i: int, j: int| 0 <= i < j < list.len() implies list[i] != list[j] by {
                crate::text::lemma_text_irreflexive(list[i]);
            }
            assert(list.no_duplicates());
            list.unique_seq_to_set();
            assert(self@.dom() =~= list.to_set());
            vstd::seq_lib::seq_to_set_is_finite(list);
        }
        self.names.len()
    }
}

impl<A: Clone> Clone for TextMap<A> {
    fn clone(&self) -> (r: Self)
        ensures
            r@.dom() == self@.dom(),
            forall|n: Seq<char>| #[trigger]
                self@.contains_key(n) ==> cloned(self@[n], r@[n]),
    {
        proof {
            use_type_invariant(self);
        }
        let r = TextMap {
            names: crate::text::copy_texts(self.names.as_slice()),
            values: self.values.clone(),
        };
        proof {
            assert(r@.dom() =~= self@.dom());
            let names = crate::text::texts(self.names@);
            assert forall|n: Seq<char>| #[trigger] self@.contains_key(n) implies cloned(
                self@[n],
                r@[n],
            ) by {
                let k = choose|k: int| 0 <= k < names.len() && names[k] == n;
                lemma_index_of(names, k);
            }
        }
        r
    }
}

impl<A: Copy> TextMap<A> {
    /// A map with the same entries.
    pub fn copy(&self) -> (r: Self)
        ensures
            r@ == self@,
    {
        proof {
            use_type_invariant(self);
        }
        let names = crate::text::copy_texts(self.names.as_slice());
        let values = crate::tree::vector_tree::copy_list(self.values.as_slice());
        TextMap { names, values }
    }
}

proof fn lemma_index_of(names: Seq<Seq<char>>, i: int)
    requires
        crate::text::sorted_distinct(names),
        0 <= i < names.len(),
    ensures
        names.index_of(names[i]) == i,
        names.contains(names[i]),
{
    crate::text::lemma_place_of(names, i);
}

proof fn lemma_replaced<A>(names: Seq<Seq<char>>, had: Seq<A>, i: int, c: A)
    requires
        crate::text::sorted_distinct(names),
        names.len() == had.len(),
        0 <= i < names.len(),
    ensures
        entries_of(names, had.update(i, c)) == entries_of(names, had).insert(names[i], c),
{
    let a = entries_of(names, had.update(i, c));
    let b = entries_of(names, had).insert(names[i], c);
    lemma_index_of(names, i);
    assert forall|n: Seq<char>| a.contains_key(n) implies a[n] == b[n] by {
        let k = choose|k: int| 0 <= k < names.len() && names[k] == n;
        lemma_index_of(names, k);
    }
    assert(a =~= b);
}

proof fn lemma_inserted<A>(names: Seq<Seq<char>>, had: Seq<A>, p: int, key: Seq<char>, c: A)
    requires
        crate::text::sorted_distinct(names),
        crate::text::sorted_distinct(names.insert(p, key)),
        names.len() == had.len(),
        0 <= p <= names.len(),
        !names.contains(key),
    ensures
        entries_of(names.insert(p, key), had.insert(p, c)) == entries_of(names, had).insert(key, c),
{
    let now = names.insert(p, key);
    let a = entries_of(now, had.insert(p, c));
    let b = entries_of(names, had).insert(key, c);
    assert forall|n: Seq<char>| a.contains_key(n) == b.contains_key(n) by {
        crate::text::lemma_insert_contains(names, p, key, n);
    }
    assert forall|n: Seq<char>| a.contains_key(n) implies a[n] == b[n] by {
        if n == key {
            assert(now[p] == key);
            lemma_index_of(now, p);
        } else {
            crate::text::lemma_insert_contains(names, p, key, n);
            let k = choose|k: int| 0 <= k < names.len() && names[k] == n;
            lemma_index_of(names, k);
            let m: int = if k < p {
                k
            } else {
                k + 1
            };
            assert(now[m] == n);
            lemma_index_of(now, m);
        }
    }
    assert(a =~= b);
}

} // verus!
