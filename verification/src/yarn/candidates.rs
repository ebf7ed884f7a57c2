//! The entries of a key-ordered table whose key starts with a given name.

use vstd::prelude::*;

use crate::text::{seq_lt, str_eq, str_lt};

verus! {

/// The first index from `i` whose key's first part is not less than `first`: where
/// the entries for `first` start in a table ordered by key.
pub open spec fn lower_bound<T>(entries: Seq<((&str, &str), T)>, first: Seq<char>, i: int) -> int
    decreases entries.len() - i,
{
    if i < 0 || i >= entries.len() {
        entries.len() as int
    } else if !seq_lt(entries[i].0.0@, first) {
        i
    } else {
        lower_bound(entries, first, i + 1)
    }
}

/// Walks the entries, ordered by key, whose key's first part is `first_value`.
pub struct Candidates<'a, T> {
    first_value: &'a str,
    entries: &'a [((&'a str, &'a str), T)],
    index: usize,
}

impl<'a, T> Candidates<'a, T> {
    pub closed spec fn spec_first(self) -> Seq<char> {
        self.first_value@
    }

    pub closed spec fn spec_entries(self) -> Seq<((&'a str, &'a str), T)> {
        self.entries@
    }

    /// Where the walk stands.
    pub closed spec fn spec_index(self) -> int {
        self.index as int
    }

    #[verifier::type_invariant]
    closed spec fn inv(self) -> bool {
        self.index <= self.entries@.len()
    }

    /// Starts at the first entry whose key is not below `(first_value, "")`.
    pub fn new(first_value: &'a str, btree: &'a [((&'a str, &'a str), T)]) -> (r: Self)
        ensures
            r.spec_first() == first_value@,
            r.spec_entries() == btree@,
            r.spec_index() == lower_bound(btree@, first_value@, 0),
    {
        let mut i: usize = 0;
        while i < btree.len() && str_lt(btree[i].0.0, first_value)
            invariant
                i <= btree@.len(),
                lower_bound(btree@, first_value@, 0) == lower_bound(btree@, first_value@, i as int),
            decreases btree@.len() - i,
        {
            i = i + 1;
        }
        Candidates { first_value, entries: btree, index: i }
    }

    /// The next entry, while its key's first part is `first_value`.
    pub fn next(&mut self) -> (r: Option<(&'a (&'a str, &'a str), &'a T)>)
        ensures
            final(self).spec_first() == old(self).spec_first(),
            final(self).spec_entries() == old(self).spec_entries(),
            ({
                let i = old(self).spec_index();
                let es = old(self).spec_entries();
                if i < es.len() && es[i].0.0@ == old(self).spec_first() {
                    r == Some((&es[i].0, &es[i].1)) && final(self).spec_index() == i + 1
                } else {
                    r is None && final(self).spec_index() == i
                }
            }),
    {
        proof {
            use_type_invariant(&*self);
        }
        if self.index < self.entries.len() && str_eq(self.entries[self.index].0.0, self.first_value) {
            let item = &self.entries[self.index];
            self.index = self.index + 1;
            Some((&item.0, &item.1))
        } else {
            None
        }
    }
}

} // verus!
