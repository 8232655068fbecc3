//! A finite assignment of boolean values to variable names.
//!
//! Its mathematical model is a `Map<Seq<char>, bool>`; a later insertion of
//! the same name overrides an earlier one, exactly as `Map::insert` does.

use vstd::prelude::*;

use crate::names::str_eq;

verus! {

pub struct Assignment {
    entries: Vec<(String, bool)>,
}

pub open spec fn map_of_entries(entries: Seq<(String, bool)>) -> Map<Seq<char>, bool>
    decreases entries.len(),
{
    if entries.len() == 0 {
        Map::empty()
    } else {
        map_of_entries(entries.drop_last()).insert(entries.last().0@, entries.last().1)
    }
}

impl Assignment {
    pub closed spec fn view(&self) -> Map<Seq<char>, bool> {
        map_of_entries(self.entries@)
    }

    pub fn new() -> (r: Self)
        ensures
            r@ == Map::<Seq<char>, bool>::empty(),
    {
        Assignment { entries: Vec::new() }
    }

    pub fn insert(&mut self, name: String, value: bool)
        ensures
            final(self)@ == old(self)@.insert(name@, value),
    {
        self.entries.push((name, value));
        proof {
            assert(self.entries@.drop_last() =~= old(self).entries@);
        }
    }

    /// The value bound to `name`, or `None` when `name` is unbound.
    pub fn get(&self, name: &str) -> (r: Option<bool>)
        ensures
            match r {
                Some(v) => self@.contains_key(name@) && self@[name@] == v,
                None => !self@.contains_key(name@),
            },
    {
        let mut i: usize = self.entries.len();
        proof {
            assert(self.entries@.take(i as int) =~= self.entries@);
        }
        loop
            invariant
                i <= self.entries@.len(),
                map_of_entries(self.entries@).contains_key(name@) == map_of_entries(
                    self.entries@.take(i as int),
                ).contains_key(name@),
                map_of_entries(self.entries@.take(i as int)).contains_key(name@)
                    ==> map_of_entries(self.entries@)[name@] == map_of_entries(
                    self.entries@.take(i as int),
                )[name@],
            decreases i,
        {
            if i == 0 {
                proof {
                    assert(self.entries@.take(0) =~= Seq::<(String, bool)>::empty());
                    reveal_with_fuel(map_of_entries, 1);
                }
                return None;
            }
            i -= 1;
            let entry_name: &String = &self.entries[i].0;
            proof {
                assert(self.entries@.take(i + 1).drop_last() =~= self.entries@.take(i as int));
                assert(self.entries@.take(i + 1).last() == self.entries@[i as int]);
            }
            if str_eq(entry_name.as_str(), name) {
                return Some(self.entries[i].1);
            }
        }
    }

    /// A structurally fresh copy bound to exactly the same values.
    pub fn duplicate(&self) -> (r: Self)
        ensures
            r@ == self@,
    {
        let mut entries: Vec<(String, bool)> = Vec::new();
        let mut i: usize = 0;
        while i < self.entries.len()
            invariant
                i <= self.entries@.len(),
                entries@.len() == i,
                forall|j: int| 0 <= j < i ==> entries@[j] == self.entries@[j],
            decreases self.entries@.len() - i,
        {
            let name: String = self.entries[i].0.clone();
            let value: bool = self.entries[i].1;
            entries.push((name, value));
            i += 1;
        }
        proof {
            assert(entries@ =~= self.entries@);
        }
        Assignment { entries }
    }
}

} // verus!
