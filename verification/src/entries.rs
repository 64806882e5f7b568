//! Lists of named entries: the rows of a table, each under a name that is
//! its key.

use vstd::prelude::*;

verus! {

/// The views of the items of a sequence.
pub open spec fn views<T: View>(items: Seq<T>) -> Seq<T::V> {
    items.map_values(|item: T| item@)
}

/// The place of the last entry under `name`, if there is one.
pub open spec fn position_of<T>(entries: Seq<(Seq<char>, T)>, name: Seq<char>) -> Option<int>
    decreases entries.len(),
{
    if entries.len() == 0 {
        None
    } else if entries.last().0 == name {
        Some(entries.len() - 1)
    } else {
        position_of(entries.drop_last(), name)
    }
}

/// What the entries hold under `name`, if anything.
pub open spec fn value_of<T>(entries: Seq<(Seq<char>, T)>, name: Seq<char>) -> Option<T> {
    match position_of(entries, name) {
        Some(i) => Some(entries[i].1),
        None => None,
    }
}

/// No two entries have one name.
pub open spec fn distinct_names<T>(entries: Seq<(Seq<char>, T)>) -> bool {
    forall|i: int, j: int|
        0 <= i < j < entries.len() ==> (#[trigger] entries[i]).0 != (#[trigger] entries[j]).0
}

/// `position_of` finds an entry exactly if one has the name.
pub proof fn lemma_position_of<T>(entries: Seq<(Seq<char>, T)>, name: Seq<char>)
    ensures
        match position_of(entries, name) {
            Some(i) => 0 <= i < entries.len() && entries[i].0 == name,
            None => forall|i: int| 0 <= i < entries.len() ==> (#[trigger] entries[i]).0 != name,
        },
    decreases entries.len(),
{
    if entries.len() > 0 && entries.last().0 != name {
        lemma_position_of(entries.drop_last(), name);
        match position_of(entries, name) {
            Some(i) => {
                assert(entries.drop_last()[i] == entries[i]);
            },
            None => {
                assert forall|i: int| 0 <= i < entries.len() implies (#[trigger] entries[i]).0
                    != name by {
                    if i < entries.len() - 1 {
                        assert(entries.drop_last()[i] == entries[i]);
                    }
                }
            },
        }
    }
}

/// The names of the entries.
pub open spec fn names_of<T>(entries: Seq<(Seq<char>, T)>) -> Seq<Seq<char>> {
    entries.map_values(|e: (Seq<char>, T)| e.0)
}

/// Among entries of distinct names, each is the one found under its name.
pub proof fn lemma_position_of_own_name<T>(entries: Seq<(Seq<char>, T)>, i: int)
    requires
        distinct_names(entries),
        0 <= i < entries.len(),
    ensures
        position_of(entries, entries[i].0) == Some(i),
{
    lemma_position_of(entries, entries[i].0);
    match position_of(entries, entries[i].0) {
        Some(j) => {
            if j < i {
                assert(entries[j].0 != entries[i].0);
            } else if i < j {
                assert(entries[i].0 != entries[j].0);
            }
        },
        None => {
            assert(entries[i].0 != entries[i].0);
        },
    }
}

/// An item that is kept under a name.
pub trait Named<X>: View<V = (Seq<char>, X)> {
    /// The name of the item.
    fn name(&self) -> (name: &String)
        ensures
            name@ == self@.0,
    ;
}

/// Finds the place of the last item under `name`.
pub fn find<X, T: Named<X>>(items: &Vec<T>, name: &String) -> (r: Option<usize>)
    ensures
        match r {
            Some(i) => position_of(views(items@), name@) == Some(i as int) && i < items@.len(),
            None => position_of(views(items@), name@) is None,
        },
{
    let ghost all = views(items@);
    let mut i: usize = items.len();
    proof {
        assert(all.take(i as int) =~= all);
    }
    while i > 0
        invariant
            i <= items@.len(),
            all == views(items@),
            position_of(all, name@) == position_of(all.take(i as int), name@),
        decreases i,
    {
        proof {
            assert(all.take(i as int).drop_last() =~= all.take(i - 1));
            assert(all.take(i as int).last() == items@[i - 1]@);
        }
        if *items[i - 1].name() == *name {
            return Some(i - 1);
        }
        i = i - 1;
    }
    None
}

/// The entries with `value` under `name`: in the place of the entry of that
/// name if there is one, else at the end.
pub open spec fn upserted<T>(entries: Seq<(Seq<char>, T)>, name: Seq<char>, value: T) -> Seq<
    (Seq<char>, T),
> {
    match position_of(entries, name) {
        Some(i) => entries.update(i, (name, value)),
        None => entries.push((name, value)),
    }
}

/// The entries after each of the rows was written over them in turn.
pub open spec fn upserted_all<T>(entries: Seq<(Seq<char>, T)>, rows: Seq<(Seq<char>, T)>) -> Seq<
    (Seq<char>, T),
>
    decreases rows.len(),
{
    if rows.len() == 0 {
        entries
    } else {
        upserted(upserted_all(entries, rows.drop_last()), rows.last().0, rows.last().1)
    }
}

} // verus!
