//! A map from names to values, kept as a list in which a later binding of a
//! name hides every earlier one.

use vstd::prelude::*;

use crate::text::str_eq;

verus! {

/// The value bound last to `name` in `s`.
pub open spec fn lookup_last<V>(s: Seq<(String, V)>, name: Seq<char>) -> Option<V>
    decreases s.len(),
{
    if s.len() == 0 {
        None
    } else if s.last().0@ == name {
        Some(s.last().1)
    } else {
        lookup_last(s.drop_last(), name)
    }
}

/// The names of the entries of `s`, in order.
pub open spec fn entry_names<V>(s: Seq<(String, V)>) -> Seq<Seq<char>> {
    s.map_values(|e: (String, V)| e.0@)
}

/// A name bound in `s` is the name of one of its entries.
proof fn lemma_lookup_found<V>(s: Seq<(String, V)>, name: Seq<char>)
    requires
        lookup_last(s, name) is Some,
    ensures
        entry_names(s).contains(name),
    decreases s.len(),
{
    let keys = entry_names(s);
    if s.last().0@ == name {
        assert(keys[s.len() - 1] == name);
    } else {
        lemma_lookup_found(s.drop_last(), name);
        let i = choose|i: int| 0 <= i < s.drop_last().len() && #[trigger] entry_names(s.drop_last())[i] == name;
        assert(keys[i] == name);
    }
}

/// Names bound to values.
pub struct NameMap<V> {
    entries: Vec<(String, V)>,
}

impl<V> View for NameMap<V> {
    type V = Map<Seq<char>, V>;

    closed spec fn view(&self) -> Map<Seq<char>, V> {
        Map::new(
            |k: Seq<char>| lookup_last(self.entries@, k) is Some,
            |k: Seq<char>| lookup_last(self.entries@, k).unwrap(),
        )
    }
}

impl<V> NameMap<V> {
    /// The number of bindings made, hidden ones included.
    pub closed spec fn size(&self) -> nat {
        self.entries@.len()
    }

    /// A list of distinct bound names is no longer than the bindings made.
    pub proof fn lemma_distinct_names_bound(&self, names: Seq<Seq<char>>)
        requires
            names.no_duplicates(),
            forall|k: int| 0 <= k < names.len() ==> self@.contains_key(#[trigger] names[k]),
        ensures
            names.len() <= self.size(),
    {
        broadcast use vstd::seq_lib::seq_to_set_is_finite;
        let keys = entry_names(self.entries@);
        assert forall|n: Seq<char>| names.to_set().contains(n) implies keys.to_set().contains(n) by {
            let k = choose|k: int| 0 <= k < names.len() && names[k] == n;
            assert(self@.contains_key(names[k]));
            lemma_lookup_found(self.entries@, n);
        }
        names.unique_seq_to_set();
        vstd::set_lib::lemma_len_subset(names.to_set(), keys.to_set());
        keys.lemma_cardinality_of_set();
    }

    /// Only finitely many names are bound.
    pub proof fn lemma_dom_finite(&self)
        ensures
            self@.dom().finite(),
    {
        broadcast use vstd::seq_lib::seq_to_set_is_finite;
        let keys = entry_names(self.entries@);
        assert forall|n: Seq<char>| self@.dom().contains(n) implies keys.to_set().contains(n) by {
            lemma_lookup_found(self.entries@, n);
        }
        vstd::set_lib::lemma_len_subset(self@.dom(), keys.to_set());
    }

    /// A map with no names.
    pub fn new() -> (r: Self)
        ensures
            r@ == Map::<Seq<char>, V>::empty(),
    {
        let r = NameMap { entries: Vec::new() };
        assert(r@ =~= Map::<Seq<char>, V>::empty());
        r
    }

    /// The value bound to `name`, if any.
    pub fn get(&self, name: &str) -> (r: Option<&V>)
        ensures
            r matches Some(v) ==> self@.contains_key(name@) && *v == self@[name@],
            r is None ==> !self@.contains_key(name@),
    {
        let ghost s = self.entries@;
        let mut i: usize = self.entries.len();
        assert(s.take(i as int) =~= s);
        while i > 0
            invariant
                s == self.entries@,
                i <= s.len(),
                lookup_last(s, name@) == lookup_last(s.take(i as int), name@),
            decreases i,
        {
            assert(s.take(i as int).drop_last() =~= s.take(i - 1));
            if str_eq(self.entries[i - 1].0.as_str(), name) {
                return Some(&self.entries[i - 1].1);
            }
            i -= 1;
        }
        None
    }

    /// Whether `name` is bound.
    pub fn contains_key(&self, name: &str) -> (r: bool)
        ensures
            r == self@.contains_key(name@),
    {
        self.get(name).is_some()
    }

    /// Bind `name` to `value`, hiding any earlier binding.
    pub fn insert(&mut self, name: String, value: V)
        ensures
            final(self)@ == old(self)@.insert(name@, value),
    {
        let ghost k = name@;
        self.entries.push((name, value));
        proof {
            let s = self.entries@;
            assert(s.drop_last() =~= old(self).entries@);
            assert forall|j: Seq<char>|
                #![trigger lookup_last(s, j)]
                lookup_last(s, j) == (if j == k {
                    Some(value)
                } else {
                    lookup_last(old(self).entries@, j)
                }) by {}
            assert(self@ =~= old(self)@.insert(k, value));
        }
    }
}

} // verus!
