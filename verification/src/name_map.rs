//! A map from names to values that hands its names out in the order in which they came.

use vstd::hash_map::StringHashMap;
use vstd::prelude::*;

use crate::text::{owned, same_text};

verus! {

broadcast use vstd::hash_map::group_hash_map_axioms;

/// `after` is `before` with `name` taken out, the others as they stood.
pub open spec fn without_name(
    before: Seq<Seq<char>>,
    after: Seq<Seq<char>>,
    name: Seq<char>,
) -> bool {
    if before.contains(name) {
        exists|i: int| 0 <= i < before.len() && #[trigger] before[i] == name && after == before.remove(i)
    } else {
        after == before
    }
}

/// The values by name, and the names in order of arrival.
#[verifier::reject_recursive_types(V)]
struct Table<V> {
    values: StringHashMap<V>,
    order: Vec<String>,
}

impl<V> Table<V> {
    spec fn names(self) -> Seq<Seq<char>> {
        crate::text::texts(self.order@)
    }

    /// Each name that has a value stands in the order once, and no other name does.
    spec fn well_formed(self) -> bool {
        &&& self.names().no_duplicates()
        &&& forall|name: Seq<char>|
            self.values@.contains_key(name) <==> #[trigger] self.names().contains(name)
    }

    fn new() -> (table: Self)
        ensures
            table.well_formed(),
            table.values@ == Map::<Seq<char>, V>::empty(),
            table.names() == Seq::<Seq<char>>::empty(),
    {
        let table = Table { values: StringHashMap::new(), order: Vec::new() };
        assert(table.names() =~= Seq::<Seq<char>>::empty());
        table
    }

    fn insert(&mut self, name: String, value: V)
        requires
            old(self).well_formed(),
        ensures
            final(self).well_formed(),
            final(self).values@ == old(self).values@.insert(name@, value),
            final(self).names() == if old(self).values@.contains_key(name@) {
                old(self).names()
            } else {
                old(self).names().push(name@)
            },
    {
        if !self.values.contains_key(name.as_str()) {
            let ghost before = self.names();
            self.order.push(owned(name.as_str()));
            assert(self.names() =~= before.push(name@));
            assert(self.names()[before.len() as int] == name@);
            assert forall|n: Seq<char>| #[trigger]
                self.names().contains(n) <==> (before.contains(n) || n == name@) by {
                if before.contains(n) {
                    let i = choose|i: int| 0 <= i < before.len() && before[i] == n;
                    assert(self.names()[i] == n);
                }
            }
            assert(!before.contains(name@));
        }
        self.values.insert(name, value);
    }

    fn remove(&mut self, name: &str)
        requires
            old(self).well_formed(),
        ensures
            final(self).well_formed(),
            final(self).values@ == old(self).values@.remove(name@),
            without_name(old(self).names(), final(self).names(), name@),
    {
        let ghost before = self.names();
        let mut i: usize = 0;
        while i < self.order.len()
            invariant
                i <= self.order@.len(),
                *self == *old(self),
                before == self.names(),
                self.well_formed(),
                forall|j: int| 0 <= j < i ==> #[trigger] before[j] != name@,
            decreases self.order@.len() - i,
        {
            if same_text(self.order[i].as_str(), name) {
                assert(before[i as int] == name@);
                self.order.remove(i);
                self.values.remove(name);
                assert(self.names() =~= before.remove(i as int));
                assert forall|n: Seq<char>| #[trigger]
                    self.names().contains(n) <==> (before.contains(n) && n != name@) by {
                    if before.contains(n) && n != name@ {
                        let j = choose|j: int| 0 <= j < before.len() && before[j] == n;
                        let k = if j < i { j } else { j - 1 };
                        assert(self.names()[k] == n);
                    }
                    if self.names().contains(n) {
                        let k = choose|k: int| 0 <= k < self.names().len() && self.names()[k] == n;
                        let j = if k < i { k } else { k + 1 };
                        assert(before[j] == n);
                    }
                }
                return;
            }
            i += 1;
        }
        assert(!before.contains(name@));
        assert(!self.values@.contains_key(name@));
        assert(self.values@.remove(name@) =~= self.values@);
    }
}

/// A map from names to values.
#[verifier::reject_recursive_types(V)]
pub struct NameMap<V> {
    table: Table<V>,
}

impl<V> View for NameMap<V> {
    type V = Map<Seq<char>, V>;

    closed spec fn view(&self) -> Map<Seq<char>, V> {
        self.table.values@
    }
}

impl<V> NameMap<V> {
    /// The names in order of arrival.
    pub closed spec fn names(self) -> Seq<Seq<char>> {
        self.table.names()
    }

    #[verifier::type_invariant]
    spec fn names_match_values(self) -> bool {
        self.table.well_formed()
    }

    /// The empty map.
    pub fn new() -> (map: Self)
        ensures
            map@ == Map::<Seq<char>, V>::empty(),
            map.names() == Seq::<Seq<char>>::empty(),
    {
        NameMap { table: Table::new() }
    }

    /// Gives `name` the value `value`. A name that is new goes behind the others.
    pub fn insert(&mut self, name: String, value: V)
        ensures
            final(self)@ == old(self)@.insert(name@, value),
            final(self).names() == if old(self)@.contains_key(name@) {
                old(self).names()
            } else {
                old(self).names().push(name@)
            },
    {
        proof {
            use_type_invariant(&*self);
        }
        let mut table = Table::new();
        std::mem::swap(&mut table, &mut self.table);
        table.insert(name, value);
        self.table = table;
    }

    /// Takes `name` and its value away, if it is there.
    pub fn remove(&mut self, name: &str)
        ensures
            final(self)@ == old(self)@.remove(name@),
            without_name(old(self).names(), final(self).names(), name@),
    {
        proof {
            use_type_invariant(&*self);
        }
        let mut table = Table::new();
        std::mem::swap(&mut table, &mut self.table);
        table.remove(name);
        self.table = table;
    }

    /// The value of `name`, if it has one.
    pub fn get(&self, name: &str) -> (value: Option<&V>)
        ensures
            value == if self@.contains_key(name@) {
                Some(&self@[name@])
            } else {
                None
            },
    {
        self.table.values.get(name)
    }

    /// Whether `name` has a value.
    pub fn contains_key(&self, name: &str) -> (found: bool)
        ensures
            found == self@.contains_key(name@),
    {
        self.table.values.contains_key(name)
    }

    /// The names, each once, in order of arrival.
    pub fn keys(&self) -> (keys: Vec<String>)
        ensures
            crate::text::texts(keys@) == self.names(),
            self.names().no_duplicates(),
            forall|name: Seq<char>|
                self@.contains_key(name) <==> #[trigger] self.names().contains(name),
    {
        proof {
            use_type_invariant(self);
        }
        let mut keys: Vec<String> = Vec::new();
        let mut i: usize = 0;
        while i < self.table.order.len()
            invariant
                i <= self.table.order@.len(),
                keys@ == self.table.order@.take(i as int),
            decreases self.table.order@.len() - i,
        {
            keys.push(self.table.order[i].clone());
            i += 1;
            assert(keys@ =~= self.table.order@.take(i as int));
        }
        assert(keys@ =~= self.table.order@);
        keys
    }

    /// How many names there are.
    pub fn len(&self) -> (len: usize)
        ensures
            self@.dom().finite(),
            len == self@.len(),
    {
        proof {
            use_type_invariant(self);
            self.table.names().unique_seq_to_set();
            assert(self.table.names().to_set() =~= self@.dom());
        }
        self.table.order.len()
    }

    /// Whether there is no name.
    pub fn is_empty(&self) -> (empty: bool)
        ensures
            empty == (self@ == Map::<Seq<char>, V>::empty()),
    {
        proof {
            use_type_invariant(self);
            if self.table.names().len() > 0 {
                let name = self.table.names()[0];
                assert(self.table.names().contains(name));
                assert(self@.contains_key(name));
            } else {
                assert(self@ =~= Map::<Seq<char>, V>::empty()) by {
                    assert forall|name: Seq<char>| !self@.contains_key(name) by {
                        assert(!self.table.names().contains(name));
                    }
                }
            }
        }
        self.table.order.len() == 0
    }
}

/// Where a name stands once, taking it out leaves the names before it where they are, and those behind
/// it one place further on. Where it does not stand, nothing changes.
pub proof fn law_other_names_keep_their_order(
    before: Seq<Seq<char>>,
    after: Seq<Seq<char>>,
    name: Seq<char>,
    at: int,
)
    requires
        before.no_duplicates(),
        without_name(before, after, name),
    ensures
        !before.contains(name) ==> after == before,
        0 <= at < before.len() && before[at] == name ==> {
            &&& after.len() == before.len() - 1
            &&& forall|i: int| 0 <= i < at ==> #[trigger] after[i] == before[i]
            &&& forall|i: int| at < i < before.len() ==> after[i - 1] == #[trigger] before[i]
        },
        !after.contains(name),
{
    if before.contains(name) {
        let i = choose|i: int|
            0 <= i < before.len() && #[trigger] before[i] == name && after == before.remove(i);
        assert forall|k: int| 0 <= k < after.len() implies #[trigger] after[k] != name by {
            let j = if k < i { k } else { k + 1 };
            assert(after[k] == before[j]);
        }
    }
}

} // verus!
