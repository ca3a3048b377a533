//! The order in which nodes are drawn: by effective weight, greatest
//! first, nodes of equal weight in the order in which they were visited.

use vstd::prelude::*;
use crate::error::PuppetError;
use crate::node::NodeUuid;

verus! {

/// `sorted`, which is in drawing order, with `entry` put behind every entry
/// that weighs at least as much and before every entry that weighs less.
pub open spec fn insert_desc(sorted: Seq<(u32, int)>, entry: (u32, int)) -> Seq<(u32, int)>
    decreases sorted.len(),
{
    if sorted.len() == 0 {
        seq![entry]
    } else if sorted.last().1 >= entry.1 {
        sorted.push(entry)
    } else {
        insert_desc(sorted.drop_last(), entry).push(sorted.last())
    }
}

/// `entries` in drawing order: each entry in turn is put into the order of
/// those before it.
pub open spec fn sorted_desc(entries: Seq<(u32, int)>) -> Seq<(u32, int)>
    decreases entries.len(),
{
    if entries.len() == 0 {
        Seq::empty()
    } else {
        insert_desc(sorted_desc(entries.drop_last()), entries.last())
    }
}

/// The weight by which an entry is ordered; an entry without a number is
/// never ordered against another, so its stand-in is of no account.
pub open spec fn weight_or_zero(weight: Option<int>) -> int {
    match weight {
        Some(z) => z,
        None => 0,
    }
}

/// The entries with the weight of each as a plain number.
pub open spec fn plain_entries(entries: Seq<(u32, Option<int>)>) -> Seq<(u32, int)> {
    Seq::new(entries.len(), |i: int| (entries[i].0, weight_or_zero(entries[i].1)))
}

/// The identifiers of a sequence of entries.
pub open spec fn entry_uuids(entries: Seq<(u32, int)>) -> Seq<u32> {
    Seq::new(entries.len(), |i: int| entries[i].0)
}

/// Whether some entry has a weight that is not a number.
pub open spec fn has_unordered(entries: Seq<(u32, Option<int>)>) -> bool {
    exists|i: int| 0 <= i < entries.len() && (#[trigger] entries[i]).1 is None
}

/// The drawing order of the visited entries. Ordering two or more entries
/// compares every weight, and fails when one of them is not a number; a
/// single entry is compared with nothing.
pub open spec fn order_of(entries: Seq<(u32, Option<int>)>) -> Result<Seq<u32>, PuppetError> {
    if entries.len() >= 2 && has_unordered(entries) {
        Err(PuppetError::IncomparableZOrder)
    } else {
        Ok(entry_uuids(sorted_desc(plain_entries(entries))))
    }
}

/// The entries of a vector as values.
pub open spec fn entry_values(entries: Seq<(NodeUuid, Option<i128>)>) -> Seq<(u32, Option<int>)> {
    Seq::new(
        entries.len(),
        |i: int|
            (
                entries[i].0.0,
                match entries[i].1 {
                    Some(z) => Some(z as int),
                    None => None,
                },
            ),
    )
}

/// The ordered entries of a vector as values.
pub open spec fn ordered_values(entries: Seq<(NodeUuid, i128)>) -> Seq<(u32, int)> {
    Seq::new(entries.len(), |i: int| (entries[i].0.0, entries[i].1 as int))
}

/// Whether no entry weighs more than one before it.
pub open spec fn is_descending(entries: Seq<(u32, int)>) -> bool {
    forall|i: int, j: int| 0 <= i < j < entries.len() ==> entries[i].1 >= entries[j].1
}

/// The test of whether an entry weighs `weight`.
pub open spec fn weighs(weight: int) -> spec_fn((u32, int)) -> bool {
    |entry: (u32, int)| entry.1 == weight
}

/// The entries that weigh `weight`, in their order.
pub open spec fn with_weight(entries: Seq<(u32, int)>, weight: int) -> Seq<(u32, int)> {
    entries.filter(weighs(weight))
}

/// Where an entry goes: behind the last entry that weighs at least as
/// much, with the others left as they stand.
pub proof fn lemma_insert_desc_place(sorted: Seq<(u32, int)>, entry: (u32, int)) -> (pos: int)
    ensures
        0 <= pos <= sorted.len(),
        insert_desc(sorted, entry) == sorted.insert(pos, entry),
        forall|k: int| pos <= k < sorted.len() ==> (#[trigger] sorted[k]).1 < entry.1,
        pos > 0 ==> sorted[pos - 1].1 >= entry.1,
    decreases sorted.len(),
{
    if sorted.len() == 0 {
        assert(insert_desc(sorted, entry) =~= sorted.insert(0, entry));
        0
    } else if sorted.last().1 >= entry.1 {
        assert(insert_desc(sorted, entry) =~= sorted.insert(sorted.len() as int, entry));
        sorted.len() as int
    } else {
        let pos = lemma_insert_desc_place(sorted.drop_last(), entry);
        assert(sorted.drop_last().insert(pos, entry).push(sorted.last()) =~= sorted.insert(
            pos,
            entry,
        ));
        assert forall|k: int| pos <= k < sorted.len() implies (#[trigger] sorted[k]).1
            < entry.1 by {
            if k < sorted.len() - 1 {
                assert(sorted.drop_last()[k] == sorted[k]);
            }
        }
        if pos > 0 {
            assert(sorted.drop_last()[pos - 1] == sorted[pos - 1]);
        }
        pos
    }
}

/// The drawing order never lets an entry follow one that weighs less.
pub proof fn lemma_sorted_desc_descends(entries: Seq<(u32, int)>)
    ensures
        is_descending(sorted_desc(entries)),
        sorted_desc(entries).len() == entries.len(),
    decreases entries.len(),
{
    if entries.len() > 0 {
        let before = sorted_desc(entries.drop_last());
        lemma_sorted_desc_descends(entries.drop_last());
        let pos = lemma_insert_desc_place(before, entries.last());
        let after = sorted_desc(entries);
        assert forall|i: int, j: int| 0 <= i < j < after.len() implies after[i].1
            >= after[j].1 by {
            if j < pos {
                assert(after[i] == before[i] && after[j] == before[j]);
            } else if j == pos {
                if i < pos {
                    assert(after[i] == before[i]);
                    assert(pos > 0);
                    if i < pos - 1 {
                        assert(before[i].1 >= before[pos - 1].1);
                    }
                }
            } else {
                assert(after[j] == before[j - 1]);
                if i < pos {
                    assert(after[i] == before[i]);
                } else if i == pos {
                } else {
                    assert(after[i] == before[i - 1]);
                }
            }
        }
    }
}

/// The drawing order holds the entries that were given, each as often as
/// it was given.
pub proof fn lemma_sorted_desc_permutes(entries: Seq<(u32, int)>)
    ensures
        sorted_desc(entries).to_multiset() == entries.to_multiset(),
    decreases entries.len(),
{
    if entries.len() == 0 {
        assert(sorted_desc(entries) =~= entries);
    } else {
        let before = sorted_desc(entries.drop_last());
        lemma_sorted_desc_permutes(entries.drop_last());
        let pos = lemma_insert_desc_place(before, entries.last());
        vstd::seq_lib::to_multiset_insert(before, pos, entries.last());
        vstd::seq_lib::to_multiset_build(entries.drop_last(), entries.last());
        assert(entries.drop_last().push(entries.last()) =~= entries);
    }
}

/// The drawing order is stable: the entries of one weight stand in it in
/// the order in which they were given.
pub proof fn lemma_sorted_desc_is_stable(entries: Seq<(u32, int)>, weight: int)
    ensures
        with_weight(sorted_desc(entries), weight) == with_weight(entries, weight),
    decreases entries.len(),
{
    let pred = weighs(weight);
    if entries.len() == 0 {
        assert(sorted_desc(entries) =~= entries);
    } else {
        let before = sorted_desc(entries.drop_last());
        let last = entries.last();
        lemma_sorted_desc_is_stable(entries.drop_last(), weight);
        let pos = lemma_insert_desc_place(before, last);
        let head = before.take(pos);
        let tail = before.skip(pos);
        assert(before.insert(pos, last) =~= head.push(last) + tail);
        assert(before =~= head + tail);
        Seq::filter_distributes_over_add(head.push(last), tail, pred);
        Seq::filter_distributes_over_add(head, tail, pred);
        head.lemma_filter_push(last, pred);
        entries.drop_last().lemma_filter_push(last, pred);
        assert(entries.drop_last().push(last) =~= entries);
        if last.1 == weight {
            assert(tail.filter(pred).len() == 0) by {
                if tail.filter(pred).len() > 0 {
                    tail.lemma_filter_pred(pred, 0);
                    let found = tail.filter(pred)[0];
                    assert(tail.filter(pred).contains(found));
                    tail.lemma_filter_contains_rev(pred, found);
                    assert(tail.contains(found));
                    let k = choose|k: int| 0 <= k < tail.len() && tail[k] == found;
                    assert(before[pos + k] == found);
                }
            }
            assert(head.filter(pred).push(last) + tail.filter(pred) =~= (head.filter(pred)
                + tail.filter(pred)).push(last));
        }
    }
}

/// Putting an entry into an order leaves in place the tail of entries that
/// weigh less than it.
proof fn lemma_insert_desc_tail(sorted: Seq<(u32, int)>, entry: (u32, int), pos: int)
    requires
        0 <= pos <= sorted.len(),
        forall|k: int| pos <= k < sorted.len() ==> (#[trigger] sorted[k]).1 < entry.1,
    ensures
        insert_desc(sorted, entry) == insert_desc(sorted.take(pos), entry) + sorted.skip(pos),
    decreases sorted.len() - pos,
{
    if pos == sorted.len() {
        assert(sorted.take(pos) =~= sorted);
        assert(insert_desc(sorted, entry) + sorted.skip(pos) =~= insert_desc(sorted, entry));
    } else {
        let shorter = sorted.drop_last();
        assert(sorted.last() == sorted[sorted.len() - 1]);
        lemma_insert_desc_tail(shorter, entry, pos);
        assert(shorter.take(pos) =~= sorted.take(pos));
        assert((insert_desc(shorter.take(pos), entry) + shorter.skip(pos)).push(sorted.last())
            =~= insert_desc(sorted.take(pos), entry) + sorted.skip(pos));
    }
}

/// Puts `entry` into `sorted`, which is in drawing order.
fn insert_entry(sorted: &mut Vec<(NodeUuid, i128)>, entry: (NodeUuid, i128))
    ensures
        ordered_values(final(sorted)@) == insert_desc(
            ordered_values(old(sorted)@),
            (entry.0.0, entry.1 as int),
        ),
{
    let ghost before = ordered_values(sorted@);
    let ghost value = (entry.0.0, entry.1 as int);
    let mut pos: usize = sorted.len();
    while pos > 0 && sorted[pos - 1].1 < entry.1
        invariant
            pos <= sorted@.len(),
            sorted@ == old(sorted)@,
            before == ordered_values(sorted@),
            value == (entry.0.0, entry.1 as int),
            forall|k: int| pos <= k < before.len() ==> (#[trigger] before[k]).1 < value.1,
        decreases pos,
    {
        pos -= 1;
    }
    proof {
        lemma_insert_desc_tail(before, value, pos as int);
        let head = before.take(pos as int);
        if pos > 0 {
            assert(head.last() == before[pos - 1]);
        }
        assert(insert_desc(head, value) == head.push(value));
    }
    sorted.insert(pos, entry);
    proof {
        assert(ordered_values(sorted@) =~= before.take(pos as int).push(value) + before.skip(
            pos as int,
        ));
    }
}

/// The entries in drawing order.
fn sort_by_zsort(entries: &Vec<(NodeUuid, i128)>) -> (sorted: Vec<(NodeUuid, i128)>)
    ensures
        ordered_values(sorted@) == sorted_desc(ordered_values(entries@)),
{
    let ghost values = ordered_values(entries@);
    let mut sorted: Vec<(NodeUuid, i128)> = Vec::new();
    let mut i: usize = 0;
    assert(values.take(0) =~= Seq::<(u32, int)>::empty());
    assert(ordered_values(sorted@) =~= Seq::<(u32, int)>::empty());
    while i < entries.len()
        invariant
            i <= entries@.len(),
            values == ordered_values(entries@),
            ordered_values(sorted@) == sorted_desc(values.take(i as int)),
        decreases entries@.len() - i,
    {
        let entry = entries[i];
        insert_entry(&mut sorted, entry);
        proof {
            let next = values.take(i + 1);
            assert(next.drop_last() =~= values.take(i as int));
            assert(next.last() == (entry.0.0, entry.1 as int));
        }
        i += 1;
    }
    assert(values.take(i as int) =~= values);
    sorted
}

/// The identifiers of the visited nodes in drawing order: sorted by
/// effective weight, greatest first, and where weights are equal in the
/// order of the visit. Fails when two or more entries are to be ordered
/// and the weight of one is not a number.
pub fn sort_uuids_by_zsort(uuid_zsorts: Vec<(NodeUuid, Option<i128>)>) -> (res: Result<
    Vec<NodeUuid>,
    PuppetError,
>)
    ensures
        match res {
            Ok(uuids) => order_of(entry_values(uuid_zsorts@)) == Ok::<Seq<u32>, PuppetError>(
                crate::node_tree::uuid_values(uuids@),
            ),
            Err(e) => order_of(entry_values(uuid_zsorts@)) == Err::<Seq<u32>, PuppetError>(e),
        },
{
    let ghost given = entry_values(uuid_zsorts@);
    let mut plain: Vec<(NodeUuid, i128)> = Vec::new();
    let mut unordered = false;
    let mut i: usize = 0;
    while i < uuid_zsorts.len()
        invariant
            i <= uuid_zsorts@.len(),
            given == entry_values(uuid_zsorts@),
            plain@.len() == i,
            unordered == has_unordered(given.take(i as int)),
            forall|k: int| 0 <= k < i ==> (#[trigger] ordered_values(plain@)[k]) == plain_entries(
                given,
            )[k],
        decreases uuid_zsorts@.len() - i,
    {
        let entry = uuid_zsorts[i];
        let ghost before = ordered_values(plain@);
        match entry.1 {
            Some(z) => {
                plain.push((entry.0, z));
            },
            None => {
                unordered = true;
                plain.push((entry.0, 0));
            },
        }
        proof {
            assert forall|k: int| 0 <= k < i + 1 implies (#[trigger] ordered_values(plain@)[k])
                == plain_entries(given)[k] by {
                if k < i {
                    assert(ordered_values(plain@)[k] == before[k]);
                }
            }
            let next = given.take(i + 1);
            let part = given.take(i as int);
            if has_unordered(part) {
                let k = choose|k: int| 0 <= k < part.len() && (#[trigger] part[k]).1 is None;
                assert(next[k].1 is None);
            }
            if entry.1 is None {
                assert(next[i as int].1 is None);
            }
            if has_unordered(next) {
                let k = choose|k: int| 0 <= k < next.len() && (#[trigger] next[k]).1 is None;
                if k < i {
                    assert(part[k].1 is None);
                }
            }
        }
        i += 1;
    }
    proof {
        assert(given.take(i as int) =~= given);
        assert(ordered_values(plain@) =~= plain_entries(given));
    }
    if unordered && plain.len() >= 2 {
        return Err(PuppetError::IncomparableZOrder);
    }
    let sorted = sort_by_zsort(&plain);
    let mut uuids: Vec<NodeUuid> = Vec::new();
    let mut j: usize = 0;
    while j < sorted.len()
        invariant
            j <= sorted@.len(),
            uuids@.len() == j,
            forall|k: int| 0 <= k < j ==> (#[trigger] uuids@[k]).0 == sorted@[k].0.0,
        decreases sorted@.len() - j,
    {
        uuids.push(sorted[j].0);
        j += 1;
    }
    proof {
        assert(crate::node_tree::uuid_values(uuids@) =~= entry_uuids(ordered_values(sorted@)));
    }
    Ok(uuids)
}

} // verus!
