//! What holds of the queries on every ordered calendar.

use vstd::prelude::*;
use crate::price_calendar::{
    covered_span, cut_after, cut_before, lemma_touched_is_run, nearest_price, ordered,
    price_seconds, price_total, touched, PeriodPrice, Price, PERIOD_LENGTH,
};

verus! {

/// The periods of an ordered calendar that an interval touches lie side by
/// side in it: they are the periods at the indices from `bounds.0` up to, and
/// without, `bounds.1`.
pub proof fn lemma_touched_is_contiguous(periods: Seq<PeriodPrice>, begin: int, end: int) -> (bounds:
    (int, int))
    requires
        ordered(periods),
    ensures
        0 <= bounds.0 <= bounds.1 <= periods.len(),
        forall|i: int|
            0 <= i < periods.len() ==> (bounds.0 <= i < bounds.1 <==> (#[trigger] periods[i]).overlaps(
                begin,
                end,
            )),
        touched(periods, begin, end) == periods.subrange(bounds.0, bounds.1),
    decreases periods.len(),
{
    if periods.len() == 0 {
        lemma_touched_is_run(periods, begin, end, 0, 0);
        (0, 0)
    } else {
        let front = periods.drop_last();
        let last = periods.last();
        let at = periods.len() - 1;
        assert forall|i: int, j: int| 0 <= i < j < front.len() implies (#[trigger] front[i]).spec_end()
            <= (#[trigger] front[j]).begin by {
            assert(front[i] == periods[i] && front[j] == periods[j]);
        }
        let (lo, hi) = lemma_touched_is_contiguous(front, begin, end);
        assert forall|i: int| 0 <= i < at implies front[i] == #[trigger] periods[i] by {}
        let bounds = if !last.overlaps(begin, end) {
            (lo, hi)
        } else if lo < hi {
            assert(periods[lo].overlaps(begin, end));
            if hi < at {
                assert(periods[lo].spec_end() <= periods[hi].begin);
                assert(periods[hi].spec_end() <= periods[at].begin);
                assert(periods[hi].overlaps(begin, end));
            }
            (lo, at + 1)
        } else {
            (at, at + 1)
        };
        lemma_touched_is_run(periods, begin, end, bounds.0, bounds.1);
        bounds
    }
}

/// An interval that no period touches gets no period.
pub proof fn lemma_untouched_is_empty(periods: Seq<PeriodPrice>, begin: int, end: int)
    requires
        forall|i: int| 0 <= i < periods.len() ==> !(#[trigger] periods[i]).overlaps(begin, end),
    ensures
        touched(periods, begin, end) == Seq::<PeriodPrice>::empty(),
{
    lemma_touched_is_run(periods, begin, end, 0, 0);
}

/// An interval that lies within one period of an ordered calendar touches
/// that period alone, and is worth the period's price for each of its
/// seconds: the price of the period in proportion to the interval's length.
pub proof fn lemma_within_one_period(periods: Seq<PeriodPrice>, k: int, begin: int, end: int)
    requires
        ordered(periods),
        0 <= k < periods.len(),
        periods[k].begin <= begin < end <= periods[k].spec_end(),
    ensures
        touched(periods, begin, end) == seq![periods[k]],
        price_seconds(touched(periods, begin, end), begin, end) == periods[k].price * (end
            - begin),
{
    let p = periods[k];
    assert forall|i: int| 0 <= i < periods.len() implies (k <= i < k + 1 <==> (
    #[trigger] periods[i]).overlaps(begin, end)) by {
        if i < k {
            assert(periods[i].spec_end() <= periods[k].begin);
        }
        if i > k {
            assert(periods[k].spec_end() <= periods[i].begin);
        }
    }
    lemma_touched_is_run(periods, begin, end, k, k + 1);
    let run = periods.subrange(k, k + 1);
    assert(run =~= seq![p]);
    lemma_price_total_of_one(p);
    assert(run.first() == p && run.last() == p);
    assert(cut_before(run, begin) == (begin - p.begin) * p.price) by (nonlinear_arith)
        requires
            cut_before(run, begin) == if p.begin < begin {
                (begin - p.begin) * p.price
            } else {
                0
            },
            p.begin <= begin,
    ;
    assert(cut_after(run, end) == (p.spec_end() - end) * p.price) by (nonlinear_arith)
        requires
            cut_after(run, end) == if end < p.spec_end() {
                (p.spec_end() - end) * p.price
            } else {
                0
            },
            end <= p.spec_end(),
    ;
    assert(covered_span(run, begin, end) == PERIOD_LENGTH);
    assert(p.price * PERIOD_LENGTH - (begin - p.begin) * p.price - (p.spec_end() - end) * p.price
        == p.price * (end - begin)) by (nonlinear_arith)
        requires
            p.spec_end() == p.begin + PERIOD_LENGTH,
    ;
}

/// The interval that is one period of an ordered calendar gets that period
/// alone, and its price.
pub proof fn lemma_whole_period(periods: Seq<PeriodPrice>, k: int)
    requires
        ordered(periods),
        0 <= k < periods.len(),
    ensures
        touched(periods, periods[k].begin as int, periods[k].spec_end()) == seq![periods[k]],
        nearest_price(
            price_seconds(
                touched(periods, periods[k].begin as int, periods[k].spec_end()),
                periods[k].begin as int,
                periods[k].spec_end(),
            ),
        ) == periods[k].price,
{
    let p = periods[k];
    lemma_within_one_period(periods, k, p.begin as int, p.spec_end());
    let amount = p.price * PERIOD_LENGTH;
    assert(p.price * (p.spec_end() - p.begin) == amount);
    assert((2 * amount + PERIOD_LENGTH) / (2 * PERIOD_LENGTH) == p.price) by (nonlinear_arith)
        requires
            amount == p.price * PERIOD_LENGTH,
            PERIOD_LENGTH == 86_400,
    ;
}

/// An interval that starts where a period stops, or later, does not get that
/// period; neither does one that stops where the period starts, or earlier.
pub proof fn lemma_apart_is_left_out(periods: Seq<PeriodPrice>, k: int, begin: int, end: int)
    requires
        0 <= k < periods.len(),
        periods[k].spec_end() <= begin || end <= periods[k].begin,
    ensures
        !touched(periods, begin, end).contains(periods[k]),
{
    broadcast use vstd::seq_lib::group_filter_ensures;

}

/// An interval that no period touches is worth the default price for each of
/// its seconds: the default price for every day of it.
pub proof fn lemma_gap_price(begin: int, end: int)
    ensures
        price_seconds(Seq::<PeriodPrice>::empty(), begin, end) == end - begin,
{
}

/// Rounding goes to the nearest price: short of the upper end of `Price`, the
/// result is within half a unit of the amount, and the amount that lies half
/// a unit above a price goes to the next.
pub proof fn lemma_nearest_price_is_nearest(amount: int)
    requires
        0 <= amount,
        nearest_price(amount) < Price::MAX,
    ensures
        2 * nearest_price(amount) * PERIOD_LENGTH - PERIOD_LENGTH <= 2 * amount,
        2 * amount < 2 * nearest_price(amount) * PERIOD_LENGTH + PERIOD_LENGTH,
{
    let units = nearest_price(amount);
    if amount > 0 {
        assert(units == (2 * amount + 86_400) / 172_800);
        assert(172_800 * units <= 2 * amount + 86_400 < 172_800 * units + 172_800);
    }
    assert(2 * units * PERIOD_LENGTH == 172_800 * units);
}

proof fn lemma_price_total_of_one(p: PeriodPrice)
    ensures
        price_total(seq![p]) == p.price,
{
    assert(seq![p].drop_last() =~= Seq::<PeriodPrice>::empty());
    reveal_with_fuel(price_total, 2);
}

} // verus!
