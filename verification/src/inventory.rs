//! The tensor inventory of a memory level: how many one-kilobyte elements of each named tensor
//! the level holds.
//!
//! The inventory is a map from tensor name to count, held as a `Vec` of `(name, count)` entries.
//! Its invariant is that no name occurs twice ([`names_distinct`]); the entries stand in the order
//! the names were first recorded, and a name recorded again keeps its place and takes the new count.
use vstd::prelude::*;

verus! {

/// An inventory as a mathematical value: its entries, each name once, in the order the names
/// first appeared.
pub type InventoryModel = Seq<(Seq<char>, usize)>;

/// The position of `name` among the entries.
pub open spec fn find_name(e: InventoryModel, name: Seq<char>) -> Option<nat>
    decreases e.len(),
{
    if e.len() == 0 {
        None
    } else {
        match find_name(e.drop_last(), name) {
            Some(i) => Some(i),
            None => if e.last().0 == name { Some((e.len() - 1) as nat) } else { None },
        }
    }
}

/// Each name appears at most once.
pub open spec fn names_distinct(e: InventoryModel) -> bool {
    forall|i: int, j: int| 0 <= i < j < e.len() ==> (#[trigger] e[i]).0 != (#[trigger] e[j]).0
}

/// The count recorded under `name`, if the name is recorded.
pub open spec fn spec_count(e: InventoryModel, name: Seq<char>) -> Option<usize> {
    match find_name(e, name) {
        Some(i) => Some(e[i as int].1),
        None => None,
    }
}

/// Records `count` under `name`, as a map's insert does: an entry already there takes the new
/// count in place, a new name goes last.
pub open spec fn spec_set(e: InventoryModel, name: Seq<char>, count: usize) -> InventoryModel {
    match find_name(e, name) {
        Some(i) => e.update(i as int, (name, count)),
        None => e.push((name, count)),
    }
}

/// The inventory a level starts from: its initial tensors recorded in order, a later entry
/// for a name replacing an earlier one.
pub open spec fn spec_from_list(init: Seq<(Seq<char>, usize)>) -> InventoryModel
    decreases init.len(),
{
    if init.len() == 0 {
        Seq::empty()
    } else {
        spec_set(spec_from_list(init.drop_last()), init.last().0, init.last().1)
    }
}

/// The inventory once one more element of tensor `name` has arrived.
pub open spec fn spec_receive(e: InventoryModel, name: Seq<char>) -> InventoryModel {
    match spec_count(e, name) {
        Some(c) => spec_set(e, name, (c + 1) as usize),
        None => spec_set(e, name, 1),
    }
}

/// The inventory once elements of the named tensors have arrived one after the other.
pub open spec fn spec_receive_all(e: InventoryModel, names: Seq<Seq<char>>) -> InventoryModel
    decreases names.len(),
{
    if names.len() == 0 {
        e
    } else {
        spec_receive(spec_receive_all(e, names.drop_last()), names.last())
    }
}

/// How many times `name` occurs in `names`.
pub open spec fn name_occurrences(names: Seq<Seq<char>>, name: Seq<char>) -> nat
    decreases names.len(),
{
    if names.len() == 0 {
        0
    } else {
        name_occurrences(names.drop_last(), name) + if names.last() == name { 1nat } else { 0nat }
    }
}

proof fn lemma_find_name(e: InventoryModel, name: Seq<char>)
    ensures
        match find_name(e, name) {
            Some(i) => i < e.len() && e[i as int].0 == name && forall|j: int| 0 <= j < i ==> (#[trigger] e[j]).0 != name,
            None => forall|j: int| 0 <= j < e.len() ==> (#[trigger] e[j]).0 != name,
        },
    decreases e.len(),
{
    if e.len() > 0 {
        lemma_find_name(e.drop_last(), name);
        assert forall|j: int| 0 <= j < e.len() - 1 implies #[trigger] e[j] == e.drop_last()[j] by {}
    }
}

proof fn lemma_find_name_unique(e: InventoryModel, name: Seq<char>, k: int)
    requires
        names_distinct(e),
        0 <= k < e.len(),
        e[k].0 == name,
    ensures
        find_name(e, name) == Some(k as nat),
{
    lemma_find_name(e, name);
}

proof fn lemma_set_keeps_distinct(e: InventoryModel, name: Seq<char>, count: usize)
    requires
        names_distinct(e),
    ensures
        names_distinct(spec_set(e, name, count)),
        spec_count(spec_set(e, name, count), name) == Some(count),
        forall|n: Seq<char>| n != name ==> #[trigger] spec_count(spec_set(e, name, count), n) == spec_count(e, n),
{
    lemma_find_name(e, name);
    let e2 = spec_set(e, name, count);
    match find_name(e, name) {
        Some(i) => {
            lemma_find_name_unique(e2, name, i as int);
        },
        None => {
            lemma_find_name_unique(e2, name, e.len() as int);
        },
    }
    assert forall|n: Seq<char>| n != name implies #[trigger] spec_count(e2, n) == spec_count(e, n) by {
        lemma_find_name(e, n);
        match find_name(e, n) {
            Some(k) => {
                lemma_find_name_unique(e2, n, k as int);
            },
            None => {
                lemma_find_name(e2, n);
            },
        }
    }
}

/// The inventory of a memory level.
pub struct Inventory {
    pub entries: Vec<(String, usize)>,
}

impl View for Inventory {
    type V = InventoryModel;

    open spec fn view(&self) -> InventoryModel {
        self.entries@.map_values(|e: (String, usize)| (e.0@, e.1))
    }
}

fn equal_names(a: &String, b: &String) -> (r: bool)
    ensures
        r == (a@ == b@),
{
    a.eq(b)
}

impl Inventory {
    /// The count recorded under `name`.
    pub fn count(&self, name: &String) -> (r: Option<usize>)
        ensures
            r == spec_count(self@, name@),
    {
        match self.position(name) {
            Some(i) => Some(self.entries[i].1),
            None => None,
        }
    }

    fn position(&self, name: &String) -> (r: Option<usize>)
        ensures
            match r {
                Some(i) => find_name(self@, name@) == Some(i as nat) && i < self.entries@.len(),
                None => find_name(self@, name@) is None,
            },
    {
        let ghost v = self@;
        let mut i: usize = 0;
        while i < self.entries.len()
            invariant
                v == self@,
                v.len() == self.entries@.len(),
                i <= v.len(),
                find_name(v.take(i as int), name@) is None,
            decreases v.len() - i,
        {
            proof {
                assert(v.take(i + 1).drop_last() =~= v.take(i as int));
            }
            if equal_names(&self.entries[i].0, name) {
                proof {
                    lemma_find_prefix(v, name@, (i + 1) as nat);
                }
                return Some(i);
            }
            i += 1;
        }
        proof {
            assert(v.take(i as int) =~= v);
        }
        None
    }

    /// Records `count` under `name` (see [`spec_set`]).
    pub fn set(&mut self, name: String, count: usize)
        requires
            names_distinct(old(self)@),
        ensures
            final(self)@ == spec_set(old(self)@, name@, count),
            names_distinct(final(self)@),
    {
        proof {
            lemma_set_keeps_distinct(self@, name@, count);
        }
        let ghost nv = name@;
        match self.position(&name) {
            Some(i) => {
                self.entries.set(i, (name, count));
                assert(self@ =~= spec_set(old(self)@, nv, count));
            },
            None => {
                self.entries.push((name, count));
                assert(self@ =~= spec_set(old(self)@, nv, count));
            },
        }
    }

    /// The inventory a memory level starts from (see [`spec_from_list`]).
    pub fn from_list(init: &Vec<(String, usize)>) -> (inv: Inventory)
        ensures
            inv@ == spec_from_list(init@.map_values(|e: (String, usize)| (e.0@, e.1))),
            names_distinct(inv@),
    {
        let ghost iv = init@.map_values(|e: (String, usize)| (e.0@, e.1));
        let mut inv = Inventory { entries: Vec::new() };
        let mut i: usize = 0;
        while i < init.len()
            invariant
                iv == init@.map_values(|e: (String, usize)| (e.0@, e.1)),
                i <= init@.len(),
                inv@ == spec_from_list(iv.take(i as int)),
                names_distinct(inv@),
            decreases init@.len() - i,
        {
            proof {
                assert(iv.take(i + 1).drop_last() =~= iv.take(i as int));
            }
            let name = init[i].0.clone();
            inv.set(name, init[i].1);
            i += 1;
        }
        proof {
            assert(iv.take(i as int) =~= iv);
        }
        inv
    }

    /// Records the arrival of one more element of tensor `name` (see [`spec_receive`]); the
    /// count must have room for it.
    pub fn receive(&mut self, name: &String)
        requires
            names_distinct(old(self)@),
            spec_count(old(self)@, name@) != Some(usize::MAX),
        ensures
            final(self)@ == spec_receive(old(self)@, name@),
            names_distinct(final(self)@),
    {
        match self.count(name) {
            Some(c) => self.set(name.clone(), c + 1),
            None => self.set(name.clone(), 1),
        }
    }
}

proof fn lemma_find_prefix(e: InventoryModel, name: Seq<char>, k: nat)
    requires
        k <= e.len(),
        find_name(e.take(k as int), name) is Some,
    ensures
        find_name(e, name) == find_name(e.take(k as int), name),
    decreases e.len() - k,
{
    if k < e.len() {
        assert(e.take((k + 1) as int).drop_last() =~= e.take(k as int));
        lemma_find_prefix(e, name, k + 1);
    } else {
        assert(e.take(k as int) =~= e);
    }
}

/// Receiving elements one after the other adds, to each tensor's count, the number of its
/// elements received, and leaves every other count as it was (so long as no count passes
/// `usize::MAX`); tensors first met on arrival start from zero.
pub proof fn law_receive_all_counts(e: InventoryModel, names: Seq<Seq<char>>, n: Seq<char>)
    requires
        names_distinct(e),
        forall|m: Seq<char>| (match spec_count(e, m) { Some(c) => c as nat, None => 0nat }) + name_occurrences(names, m) <= usize::MAX,
    ensures
        names_distinct(spec_receive_all(e, names)),
        spec_count(spec_receive_all(e, names), n) == if spec_count(e, n) is None && name_occurrences(names, n) == 0 {
            None::<usize>
        } else {
            Some(((match spec_count(e, n) { Some(c) => c as nat, None => 0nat }) + name_occurrences(names, n)) as usize)
        },
    decreases names.len(),
{
    if names.len() > 0 {
        let prev = names.drop_last();
        assert forall|m: Seq<char>| (match spec_count(e, m) { Some(c) => c as nat, None => 0nat }) + name_occurrences(prev, m) <= usize::MAX by {
            assert((match spec_count(e, m) { Some(c) => c as nat, None => 0nat }) + name_occurrences(names, m) <= usize::MAX);
        }
        law_receive_all_counts(e, prev, n);
        law_receive_all_counts(e, prev, names.last());
        let before = spec_receive_all(e, prev);
        match spec_count(before, names.last()) {
            Some(c) => lemma_set_keeps_distinct(before, names.last(), (c + 1) as usize),
            None => lemma_set_keeps_distinct(before, names.last(), 1),
        }
        assert((match spec_count(e, names.last()) { Some(c) => c as nat, None => 0nat }) + name_occurrences(names, names.last()) <= usize::MAX);
    }
}


/// The count the last entry for `name` in `init` gives, if any.
pub open spec fn last_given(init: Seq<(Seq<char>, usize)>, name: Seq<char>) -> Option<usize>
    decreases init.len(),
{
    if init.len() == 0 {
        None
    } else if init.last().0 == name {
        Some(init.last().1)
    } else {
        last_given(init.drop_last(), name)
    }
}

/// A level starts with each tensor of its initial list recorded once, with the count of the last
/// entry that names it.
pub proof fn law_from_list_last_wins(init: Seq<(Seq<char>, usize)>, name: Seq<char>)
    ensures
        names_distinct(spec_from_list(init)),
        spec_count(spec_from_list(init), name) == last_given(init, name),
    decreases init.len(),
{
    if init.len() > 0 {
        law_from_list_last_wins(init.drop_last(), name);
        lemma_set_keeps_distinct(spec_from_list(init.drop_last()), init.last().0, init.last().1);
    } else {
        lemma_find_name(spec_from_list(init), name);
    }
}

} // verus!
