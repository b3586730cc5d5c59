//! Lists of node ids and of values: membership, copies and the selections
//! that the broadcast node makes among its neighbours.

use vstd::prelude::*;
use crate::model::{distinct, neighbors_of, other_than, others, Id};
use crate::payload::topology_view;

verus! {

/// Whether `value` is among `values`.
pub fn contains_value(values: &Vec<usize>, value: usize) -> (found: bool)
    ensures
        found == values@.contains(value),
{
    let mut i: usize = 0;
    while i < values.len()
        invariant
            i <= values.len(),
            forall|k: int| 0 <= k < i ==> values@[k] != value,
        decreases values.len() - i,
    {
        if values[i] == value {
            return true;
        }
        i += 1;
    }
    false
}

/// Whether `id` is among `ids`.
pub fn contains_id(ids: &Vec<String>, id: &String) -> (found: bool)
    ensures
        found == ids.deep_view().contains(id@),
{
    let mut i: usize = 0;
    while i < ids.len()
        invariant
            i <= ids.len(),
            forall|k: int| 0 <= k < i ==> ids.deep_view()[k] != id@,
        decreases ids.len() - i,
    {
        if ids[i] == *id {
            assert(ids.deep_view()[i as int] == id@);
            return true;
        }
        i += 1;
    }
    false
}

/// A copy of `values`.
pub fn copy_values(values: &Vec<usize>) -> (copy: Vec<usize>)
    ensures
        copy@ == values@,
{
    let mut copy: Vec<usize> = Vec::new();
    let mut i: usize = 0;
    while i < values.len()
        invariant
            i <= values.len(),
            copy@ == values@.take(i as int),
        decreases values.len() - i,
    {
        copy.push(values[i]);
        assert(values@.take(i + 1) == values@.take(i as int).push(values@[i as int]));
        i += 1;
    }
    assert(values@.take(values.len() as int) == values@);
    copy
}

/// The members of `ids`, each once, in the order of their first occurrence.
pub fn distinct_ids(ids: &Vec<String>) -> (kept: Vec<String>)
    ensures
        kept.deep_view() == distinct(ids.deep_view()),
{
    let ghost all = ids.deep_view();
    let mut kept: Vec<String> = Vec::new();
    let mut i: usize = 0;
    assert(all.take(0) =~= Seq::<Id>::empty());
    assert(kept.deep_view() =~= Seq::<Id>::empty());
    while i < ids.len()
        invariant
            i <= ids.len(),
            all == ids.deep_view(),
            kept.deep_view() == distinct(all.take(i as int)),
        decreases ids.len() - i,
    {
        let ghost before = kept.deep_view();
        assert(all.take(i + 1).drop_last() =~= all.take(i as int));
        assert(all.take(i + 1).last() == ids@[i as int]@);
        if !contains_id(&kept, &ids[i]) {
            kept.push(ids[i].clone());
            assert(kept.deep_view() =~= before.push(ids@[i as int]@));
        }
        i += 1;
    }
    assert(all.take(ids.len() as int) =~= all);
    kept
}

/// The neighbours that `topology` lists for `me`.
pub fn neighbors_in(topology: &Vec<(String, Vec<String>)>, me: &String) -> (found: Vec<String>)
    ensures
        found.deep_view() == neighbors_of(topology_view(topology@), me@),
{
    let ghost all = topology@;
    let mut found: Vec<String> = Vec::new();
    let mut i: usize = 0;
    assert(found.deep_view() =~= Seq::<Id>::empty());
    assert(all.take(0) =~= Seq::<(String, Vec<String>)>::empty());
    while i < topology.len()
        invariant
            i <= topology.len(),
            all == topology@,
            found.deep_view() == neighbors_of(topology_view(all.take(i as int)), me@),
        decreases topology.len() - i,
    {
        assert(all.take(i + 1).drop_last() =~= all.take(i as int));
        assert(all.take(i + 1).last() == all[i as int]);
        if topology[i].0 == *me {
            found = distinct_ids(&topology[i].1);
        }
        i += 1;
    }
    assert(all.take(topology.len() as int) =~= all);
    found
}

/// `neighbors` without `sender`, in order.
pub fn others_of(neighbors: &Vec<String>, sender: &String) -> (kept: Vec<String>)
    ensures
        kept.deep_view() == others(neighbors.deep_view(), sender@),
{
    let ghost all = neighbors.deep_view();
    let ghost keep = other_than(sender@);
    let mut kept: Vec<String> = Vec::new();
    let mut i: usize = 0;
    proof {
        reveal(Seq::filter);
        assert(all.take(0) =~= Seq::<Id>::empty());
        assert(kept.deep_view() =~= Seq::<Id>::empty());
    }
    while i < neighbors.len()
        invariant
            i <= neighbors.len(),
            all == neighbors.deep_view(),
            keep == other_than(sender@),
            kept.deep_view() == all.take(i as int).filter(keep),
        decreases neighbors.len() - i,
    {
        let ghost before = kept.deep_view();
        proof {
            assert(all.take(i + 1) =~= all.take(i as int).push(all[i as int]));
            all.take(i as int).lemma_filter_push(all[i as int], keep);
        }
        if neighbors[i] != *sender {
            kept.push(neighbors[i].clone());
            assert(kept.deep_view() =~= before.push(all[i as int]));
        }
        i += 1;
    }
    assert(all.take(neighbors.len() as int) =~= all);
    kept
}

} // verus!
