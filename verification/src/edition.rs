//! Freezing a daily edition: the ranked items of a day are written once,
//! with ranks from 1, and an edition that already holds items is left as it
//! is.
use vstd::prelude::*;

verus! {

/// One place of an edition: the item and its rank, counted from 1.
#[derive(Debug, Clone, Copy, PartialEq, Eq, Structural)]
pub struct EditionSlot {
    pub item_id: i64,
    pub rank: i64,
}

/// The places to write for an edition that holds `existing_count` items,
/// given the ranked item ids: every ranked item, ranked from 1, when the
/// edition is empty; nothing otherwise.
pub open spec fn planned_slots(existing_count: int, ranked_ids: Seq<i64>) -> Seq<EditionSlot> {
    if existing_count == 0 {
        Seq::new(ranked_ids.len(), |k: int| EditionSlot { item_id: ranked_ids[k], rank: (k + 1) as i64 })
    } else {
        Seq::empty()
    }
}

/// The places to write into an edition that already holds `existing_count`
/// items.
pub fn plan_edition_slots(existing_count: i64, ranked_ids: &Vec<i64>) -> (slots: Vec<EditionSlot>)
    requires
        ranked_ids@.len() < i64::MAX,
    ensures
        slots@ == planned_slots(existing_count as int, ranked_ids@),
{
    let mut slots: Vec<EditionSlot> = Vec::new();
    if existing_count != 0 {
        return slots;
    }
    let n = ranked_ids.len();
    for k in 0..n
        invariant
            n == ranked_ids@.len(),
            n < i64::MAX,
            slots@ == planned_slots(0, ranked_ids@).take(k as int),
    {
        slots.push(EditionSlot { item_id: ranked_ids[k], rank: (k + 1) as i64 });
        assert(planned_slots(0, ranked_ids@).take(k + 1) =~= planned_slots(0, ranked_ids@).take(k as int).push(
            EditionSlot { item_id: ranked_ids@[k as int], rank: (k + 1) as i64 },
        ));
    }
    assert(planned_slots(0, ranked_ids@).take(n as int) =~= planned_slots(0, ranked_ids@));
    slots
}

/// An edition is frozen once it holds items: generating it again writes
/// nothing, whatever the ranking is then.
pub proof fn law_filled_edition_is_frozen(first: Seq<i64>, later: Seq<i64>)
    requires
        first.len() > 0,
    ensures
        planned_slots(planned_slots(0, first).len() as int, later).len() == 0,
{
}

/// The places of a fresh edition keep the ranking's order, with ranks 1, 2 and so on.
pub proof fn law_fresh_edition_ranks_in_order(ranked_ids: Seq<i64>, k: int)
    requires
        0 <= k < ranked_ids.len() < i64::MAX,
    ensures
        planned_slots(0, ranked_ids)[k].item_id == ranked_ids[k],
        planned_slots(0, ranked_ids)[k].rank == k + 1,
{
}

} // verus!
