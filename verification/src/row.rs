//! One row of the grid: the entries of its events, by day number.

use crate::event::{EntryView, RowEntry};
use std::collections::BTreeMap;
use vstd::prelude::*;
use vstd::std_specs::cmp::OrdSpec;
use vstd::std_specs::iter::IteratorSpec;

verus! {

/// The least day that `row` has an entry on; `None` where it has none.
pub fn first_key(row: &BTreeMap<i32, RowEntry>) -> (first: Option<i32>)
    ensures
        first is None <==> row@.dom().is_empty(),
        first matches Some(day) ==> row@.contains_key(day) && forall|d: i32|
            row@.contains_key(d) ==> day <= d,
{
    for entry in it: row.iter()
        invariant
            it.index() == 0,
            it.seq() == row.iter().remaining(),
            vstd::std_specs::btree::increasing_seq(
                it.seq().map_values(|kv: (&i32, &RowEntry)| *kv.0),
            ),
    {
        proof {
            let entries = it.seq();
            let days = entries.map_values(|kv: (&i32, &RowEntry)| *kv.0);
            assert(entry == entries[0]);
            assert(row@.contains_key(*entries[0].0));
            assert forall|d: i32| row@.contains_key(d) implies *entries[0].0 <= d by {
                assert(entries.contains((&d, &row@[d])));
                let i = choose|i: int| 0 <= i < entries.len() && entries[i] == (&d, &row@[d]);
                if i > 0 {
                    assert(days[0] == *entries[0].0);
                    assert(days[i] == d);
                    assert(days[0].cmp_spec(&days[i]) is Less);
                }
            }
        }
        return Some(*entry.0);
    }
    proof {
        assert(row.iter().remaining().len() == 0);
        assert(row@.dom().len() == 0);
        assert(row@.dom().finite());
    }
    None
}

} // verus!
