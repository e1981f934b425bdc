use std::collections::hash_map::Entry;
use std::collections::HashMap;
use vstd::prelude::*;
use crate::price_calendar::{
    nearest_price, ordered, price_seconds, touched, PeriodPrice, Price, PriceCalendar, Timestamp,
    PERIOD_LENGTH,
};

verus! {

broadcast use vstd::std_specs::hash::group_hash_axioms;

/// What names an item.
pub type Identifier = u32;

/// The calendar of each item that has a price.
pub type YieldIndices = HashMap<Identifier, PriceCalendar>;

/// The periods that `indices` holds for `item_id`: none for an item that it
/// does not know.
pub open spec fn periods_of(indices: Map<Identifier, PriceCalendar>, item_id: Identifier) -> Seq<
    PeriodPrice,
> {
    if indices.contains_key(item_id) {
        indices[item_id]@
    } else {
        Seq::empty()
    }
}

/// Files one price under its item, behind those that the item has already.
/// The item's calendar is made when its first price comes.
pub fn record(indices: &mut YieldIndices, item_id: Identifier, begin: Timestamp, price: Price)
    ensures
        final(indices)@.dom() == old(indices)@.dom().insert(item_id),
        periods_of(final(indices)@, item_id) == periods_of(old(indices)@, item_id).push(
            PeriodPrice { begin, price },
        ),
        forall|other: Identifier|
            other != item_id ==> final(indices)@.contains_key(other) ==> final(indices)@[other]
                == old(indices)@[other],
{
    let index = match indices.entry(item_id) {
        Entry::Occupied(o) => o.into_mut(),
        Entry::Vacant(v) => v.insert(PriceCalendar { data: Vec::new() }),
    };
    index.add(PeriodPrice { begin, price });
}

/// One price as it comes in: the item, the start of its period, the price.
pub type PriceRecord = (Identifier, Timestamp, Price);

/// The test that a record is a price of `item_id`.
pub open spec fn priced_item(item_id: Identifier) -> spec_fn(PriceRecord) -> bool {
    |r: PriceRecord| r.0 == item_id
}

/// The period that a record stands for.
pub open spec fn period_of() -> spec_fn(PriceRecord) -> PeriodPrice {
    |r: PriceRecord| PeriodPrice { begin: r.1, price: r.2 }
}

/// The periods that `records` hold for `item_id`, in the order of `records`.
pub open spec fn periods_for(records: Seq<PriceRecord>, item_id: Identifier) -> Seq<PeriodPrice> {
    records.filter(priced_item(item_id)).map_values(period_of())
}

/// Whether `records` has a price for `item_id`.
pub open spec fn mentions(records: Seq<PriceRecord>, item_id: Identifier) -> bool {
    exists|i: int| 0 <= i < records.len() && (#[trigger] records[i]).0 == item_id
}

/// Taking one more record adds its period to its item and leaves the other
/// items as they are.
proof fn lemma_periods_for_push(records: Seq<PriceRecord>, next: PriceRecord, item_id: Identifier)
    ensures
        periods_for(records.push(next), item_id) == if next.0 == item_id {
            periods_for(records, item_id).push(PeriodPrice { begin: next.1, price: next.2 })
        } else {
            periods_for(records, item_id)
        },
{
    let pred = priced_item(item_id);
    let to_period = period_of();
    records.lemma_filter_push(next, pred);
    if next.0 == item_id {
        assert(records.filter(pred).push(next).map_values(to_period) =~= records.filter(
            pred,
        ).map_values(to_period).push(to_period(next)));
    }
}

/// Whether the prices of each item come in ascending order, a period's length
/// or more apart.
pub open spec fn spaced(records: Seq<PriceRecord>) -> bool {
    forall|i: int, j: int|
        0 <= i < j < records.len() && (#[trigger] records[i]).0 == (#[trigger] records[j]).0
            ==> records[i].1 + PERIOD_LENGTH <= records[j].1
}

/// Each period that `records` hold for an item is that of one of its records.
proof fn lemma_period_has_record(records: Seq<PriceRecord>, item_id: Identifier, k: int) -> (i: int)
    requires
        0 <= k < periods_for(records, item_id).len(),
    ensures
        0 <= i < records.len(),
        records[i].0 == item_id,
        periods_for(records, item_id)[k] == (PeriodPrice {
            begin: records[i].1,
            price: records[i].2,
        }),
    decreases records.len(),
{
    if records.len() == 0 {
        reveal(Seq::filter);
        0
    } else {
        let front = records.drop_last();
        let last = records.last();
        assert(records =~= front.push(last));
        lemma_periods_for_push(front, last, item_id);
        if last.0 == item_id && k == periods_for(front, item_id).len() {
            records.len() - 1
        } else {
            lemma_period_has_record(front, item_id, k)
        }
    }
}

/// Records that are spaced give every item an ordered calendar.
pub proof fn lemma_spaced_records_give_ordered_calendars(
    records: Seq<PriceRecord>,
    item_id: Identifier,
)
    requires
        spaced(records),
    ensures
        ordered(periods_for(records, item_id)),
    decreases records.len(),
{
    if records.len() == 0 {
        reveal(Seq::filter);
    } else {
        let front = records.drop_last();
        let last = records.last();
        assert(records =~= front.push(last));
        assert(spaced(front)) by {
            assert forall|i: int, j: int|
                0 <= i < j < front.len() && (#[trigger] front[i]).0 == (#[trigger] front[j]).0
                implies front[i].1 + PERIOD_LENGTH <= front[j].1 by {
                assert(records[i].0 == records[j].0);
            }
        }
        lemma_spaced_records_give_ordered_calendars(front, item_id);
        lemma_periods_for_push(front, last, item_id);
        let earlier = periods_for(front, item_id);
        let all = periods_for(records, item_id);
        if last.0 == item_id {
            assert forall|a: int, b: int| 0 <= a < b < all.len() implies (#[trigger] all[a]).spec_end()
                <= (#[trigger] all[b]).begin by {
                if b < earlier.len() {
                    assert(earlier[a].spec_end() <= earlier[b].begin);
                } else {
                    let i = lemma_period_has_record(front, item_id, a);
                    assert(records[i].0 == records[records.len() - 1].0);
                }
            }
        }
    }
}

/// Groups `records` by item, each item's prices in the order in which they
/// stand in `records`. Nothing is sorted and nothing dropped.
pub fn build(records: &[PriceRecord]) -> (indices: YieldIndices)
    ensures
        forall|item_id: Identifier|
            indices@.contains_key(item_id) <==> mentions(records@, item_id),
        forall|item_id: Identifier| #[trigger]
            periods_of(indices@, item_id) == periods_for(records@, item_id),
{
    let mut indices: YieldIndices = HashMap::new();
    let mut i: usize = 0;
    assert(forall|item_id: Identifier| #[trigger]
        periods_for(records@.take(0), item_id) =~= Seq::empty()) by {
        reveal(Seq::filter);
    }
    while i < records.len()
        invariant
            i <= records@.len(),
            forall|item_id: Identifier|
                indices@.contains_key(item_id) <==> mentions(records@.take(i as int), item_id),
            forall|item_id: Identifier| #[trigger]
                periods_of(indices@, item_id) == periods_for(records@.take(i as int), item_id),
        decreases records@.len() - i,
    {
        let ghost before = indices@;
        let ghost seen = records@.take(i as int);
        let (item_id, begin, price) = records[i];
        record(&mut indices, item_id, begin, price);
        i = i + 1;
        proof {
            let now = records@.take(i as int);
            assert(now =~= seen.push(records@[i - 1]));
            assert forall|other: Identifier| #[trigger]
                periods_of(indices@, other) == periods_for(now, other) by {
                lemma_periods_for_push(seen, records@[i - 1], other);
                assert(periods_of(before, other) == periods_for(seen, other));
                if other != item_id {
                    assert(indices@.contains_key(other) == before.contains_key(other));
                }
            }
            assert forall|other: Identifier|
                indices@.contains_key(other) <==> mentions(now, other) by {
                if mentions(now, other) {
                    let j = choose|j: int| 0 <= j < now.len() && (#[trigger] now[j]).0 == other;
                    if j < i - 1 {
                        assert(seen[j].0 == other);
                    }
                }
                if mentions(seen, other) {
                    let j = choose|j: int| 0 <= j < seen.len() && (#[trigger] seen[j]).0 == other;
                    assert(now[j].0 == other);
                }
                if other == item_id {
                    assert(now[i - 1].0 == other);
                }
            }
        }
    }
    proof {
        assert(records@.take(i as int) =~= records@);
    }
    indices
}

/// The answer to a query for an item that the index does not hold.
#[derive(Debug, PartialEq, Eq, Structural, Copy, Clone)]
pub struct UnknownItem {
    pub item_id: Identifier,
}

/// The periods of `item_id` that `[begin, end)` touches, in ascending order.
pub fn search_index(indices: &YieldIndices, item_id: Identifier, begin: Timestamp, end: Timestamp) -> (found:
    Result<Vec<PeriodPrice>, UnknownItem>)
    ensures
        indices@.contains_key(item_id) <==> found is Ok,
        found is Err ==> found->Err_0 == (UnknownItem { item_id }),
        found is Ok && ordered(indices@[item_id]@) ==> found->Ok_0@ == touched(
            indices@[item_id]@,
            begin as int,
            end as int,
        ),
        found is Ok ==> exists|lo: int, hi: int|
            0 <= lo <= hi <= indices@[item_id]@.len() && found->Ok_0@
                == #[trigger] indices@[item_id]@.subrange(lo, hi),
{
    match indices.get(&item_id) {
        Some(calendar) => Ok(
            vstd::slice::slice_to_vec(calendar.proportional_period_prices(begin, end)),
        ),
        None => Err(UnknownItem { item_id }),
    }
}

/// The price of `[begin, end)` for `item_id`.
pub fn single_price(indices: &YieldIndices, item_id: Identifier, begin: Timestamp, end: Timestamp) -> (found:
    Result<Price, UnknownItem>)
    ensures
        indices@.contains_key(item_id) <==> found is Ok,
        found is Err ==> found->Err_0 == (UnknownItem { item_id }),
        found is Ok && ordered(indices@[item_id]@) ==> found->Ok_0 == nearest_price(
            price_seconds(
                touched(indices@[item_id]@, begin as int, end as int),
                begin as int,
                end as int,
            ),
        ),
{
    match indices.get(&item_id) {
        Some(calendar) => Ok(calendar.proportional_sum(begin, end)),
        None => Err(UnknownItem { item_id }),
    }
}

} // verus!
