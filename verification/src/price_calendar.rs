use vstd::prelude::*;

verus! {

/// A price, in whole units.
pub type Price = u16;

/// Seconds since the epoch.
pub type Timestamp = u32;

/// Length of every period in seconds: one day.
pub const PERIOD_LENGTH: u32 = 86_400;

/// Price of a day that no period covers.
pub const DEFAULT_PRICE: Price = 1;

/// A day-long span of time, starting at `begin`, with one price.
#[derive(Debug, PartialEq, Eq, Structural, Copy, Clone)]
pub struct PeriodPrice {
    pub begin: Timestamp,
    pub price: Price,
}

/// Where a period lies with respect to an instant.
#[derive(Debug, PartialEq, Eq, Structural, Copy, Clone)]
pub enum Placement {
    /// The period has stopped at or before the instant.
    Before,
    /// The instant falls inside the period.
    Covers,
    /// The period starts after the instant.
    After,
}

impl PeriodPrice {
    /// The instant at which the period stops, which is where a next period
    /// may start. The period covers `[begin, spec_end())`.
    pub open spec fn spec_end(self) -> int {
        self.begin + PERIOD_LENGTH
    }

    /// Whether the period and `[begin, end)` have an instant in common, for
    /// `begin < end`.
    pub open spec fn overlaps(self, begin: int, end: int) -> bool {
        self.begin < end && begin < self.spec_end()
    }

    /// The placement of the period with respect to `instant`.
    pub open spec fn placement(self, instant: int) -> Placement {
        if self.spec_end() <= instant {
            Placement::Before
        } else if self.begin <= instant {
            Placement::Covers
        } else {
            Placement::After
        }
    }

    pub fn begin(&self) -> (r: Timestamp)
        ensures
            r == self.begin,
    {
        self.begin
    }

    /// The start of the next period. Only a period that stops within the
    /// range of `Timestamp` has one.
    pub fn end(&self) -> (r: Timestamp)
        requires
            self.spec_end() <= Timestamp::MAX,
        ensures
            r == self.spec_end(),
    {
        self.begin + PERIOD_LENGTH
    }

    pub fn price(&self) -> (r: Price)
        ensures
            r == self.price,
    {
        self.price
    }

    /// Three-way comparison of the period with an instant, as a search over
    /// ascending periods needs it: a period that starts before the instant
    /// is `Before` it only if its last second is before it too.
    pub fn locate(&self, instant: Timestamp) -> (r: Placement)
        ensures
            r == self.placement(instant as int),
    {
        if self.begin < instant {
            // No overflow: begin < instant <= Timestamp::MAX.
            if instant - self.begin > PERIOD_LENGTH - 1 {
                Placement::Before
            } else {
                Placement::Covers
            }
        } else if self.begin == instant {
            Placement::Covers
        } else {
            Placement::After
        }
    }
}

/// The periods of one item, meant to be held in ascending order.
///
/// Nothing is checked when a period is added. The queries say exactly what
/// they return of a calendar that is [`ordered`]; of any other they return
/// without failing, and promise little.
#[derive(Debug)]
pub struct PriceCalendar {
    pub data: Vec<PeriodPrice>,
}

/// Whether the periods ascend without overlapping: each stops before or where
/// every later one starts. Days without a period may lie between them.
pub open spec fn ordered(periods: Seq<PeriodPrice>) -> bool {
    forall|i: int, j: int|
        0 <= i < j < periods.len() ==> (#[trigger] periods[i]).spec_end() <= (
        #[trigger] periods[j]).begin
}

/// The periods that `[begin, end)` touches, in their stored order.
pub open spec fn touched(periods: Seq<PeriodPrice>, begin: int, end: int) -> Seq<PeriodPrice> {
    periods.filter(|p: PeriodPrice| p.overlaps(begin, end))
}

/// Sum of the prices of `run`.
pub open spec fn price_total(run: Seq<PeriodPrice>) -> int
    decreases run.len(),
{
    if run.len() == 0 {
        0
    } else {
        price_total(run.drop_last()) + run.last().price
    }
}

/// What the part of the first period of `run` that lies before `begin` is
/// worth, in price-seconds: its price for each second. Nothing where `run` is
/// empty or starts at or after `begin`.
pub open spec fn cut_before(run: Seq<PeriodPrice>, begin: int) -> int {
    if run.len() > 0 && run.first().begin < begin {
        (begin - run.first().begin) * run.first().price
    } else {
        0
    }
}

/// What the part of the last period of `run` that lies at or after `end` is
/// worth, in price-seconds. Nothing where `run` is empty or stops at or
/// before `end`.
pub open spec fn cut_after(run: Seq<PeriodPrice>, end: int) -> int {
    if run.len() > 0 && end < run.last().spec_end() {
        (run.last().spec_end() - end) * run.last().price
    } else {
        0
    }
}

/// Seconds from the earlier of `begin` and the start of `run` to the later of
/// `end` and the stop of `run`.
pub open spec fn covered_span(run: Seq<PeriodPrice>, begin: int, end: int) -> int {
    if run.len() == 0 {
        end - begin
    } else {
        let from = if run.first().begin < begin { run.first().begin as int } else { begin };
        let to = if end < run.last().spec_end() { run.last().spec_end() } else { end };
        to - from
    }
}

/// The price of `[begin, end)` over the periods `run` that it touches, in
/// price-seconds, which are `PERIOD_LENGTH` to the price unit: the whole
/// prices of the periods, less what the first and the last are worth outside
/// the interval, plus the default price for the time of the covered span that
/// is not a period's.
pub open spec fn price_seconds(run: Seq<PeriodPrice>, begin: int, end: int) -> int {
    price_total(run) * PERIOD_LENGTH - cut_before(run, begin) - cut_after(run, end) + (
    covered_span(run, begin, end) - run.len() * PERIOD_LENGTH) * DEFAULT_PRICE
}

/// The price nearest to `amount` price-seconds, a half going up, kept within
/// the range of `Price`.
pub open spec fn nearest_price(amount: int) -> int {
    if amount <= 0 {
        0
    } else if (2 * amount + PERIOD_LENGTH) / (2 * PERIOD_LENGTH) > Price::MAX {
        Price::MAX as int
    } else {
        (2 * amount + PERIOD_LENGTH) / (2 * PERIOD_LENGTH)
    }
}

/// An ordered calendar stays ordered when a period is put behind it that
/// starts where its last period stops, or later.
pub proof fn lemma_push_keeps_ordered(periods: Seq<PeriodPrice>, next: PeriodPrice)
    requires
        ordered(periods),
        periods.len() == 0 || periods.last().spec_end() <= next.begin,
    ensures
        ordered(periods.push(next)),
{
    let longer = periods.push(next);
    assert forall|i: int, j: int| 0 <= i < j < longer.len() implies (#[trigger] longer[i]).spec_end()
        <= (#[trigger] longer[j]).begin by {
        if j < periods.len() {
            assert(periods[i].spec_end() <= periods[j].begin);
        } else if i < periods.len() - 1 {
            assert(periods[i].spec_end() <= periods.last().begin);
        }
    }
}

/// A calendar is ordered when each period stops before or where the next one
/// starts.
pub proof fn lemma_ordered_by_neighbours(periods: Seq<PeriodPrice>)
    requires
        forall|i: int|
            0 <= i < periods.len() - 1 ==> (#[trigger] periods[i]).spec_end() <= periods[i
                + 1].begin,
    ensures
        ordered(periods),
    decreases periods.len(),
{
    if periods.len() > 1 {
        let front = periods.drop_last();
        assert forall|i: int| 0 <= i < front.len() - 1 implies (#[trigger] front[i]).spec_end()
            <= front[i + 1].begin by {
            assert(periods[i].spec_end() <= periods[i + 1].begin);
        }
        lemma_ordered_by_neighbours(front);
        assert(periods[periods.len() - 2].spec_end() <= periods[periods.len() - 2 + 1].begin);
        lemma_push_keeps_ordered(front, periods.last());
        assert(front.push(periods.last()) =~= periods);
    }
}

/// A filter keeps a sequence whole when every item passes.
proof fn lemma_filter_keeps_all(s: Seq<PeriodPrice>, pred: spec_fn(PeriodPrice) -> bool)
    requires
        forall|i: int| 0 <= i < s.len() ==> pred(#[trigger] s[i]),
    ensures
        s.filter(pred) == s,
    decreases s.len(),
{
    reveal(Seq::filter);
    if s.len() > 0 {
        let front = s.drop_last();
        assert forall|i: int| 0 <= i < front.len() implies pred(#[trigger] front[i]) by {
            assert(front[i] == s[i]);
        }
        lemma_filter_keeps_all(front, pred);
        assert(front.push(s.last()) =~= s);
    }
}

/// Where the periods that `[begin, end)` touches are exactly those at the
/// indices `lo..hi`, they are that run of the calendar.
pub proof fn lemma_touched_is_run(periods: Seq<PeriodPrice>, begin: int, end: int, lo: int, hi: int)
    requires
        0 <= lo <= hi <= periods.len(),
        forall|i: int|
            0 <= i < periods.len() ==> (lo <= i < hi <==> (#[trigger] periods[i]).overlaps(
                begin,
                end,
            )),
    ensures
        touched(periods, begin, end) == periods.subrange(lo, hi),
{
    let pred = |p: PeriodPrice| p.overlaps(begin, end);
    let head = periods.subrange(0, lo);
    let run = periods.subrange(lo, hi);
    let tail = periods.subrange(hi, periods.len() as int);
    assert(periods =~= head + run + tail);
    assert forall|i: int| 0 <= i < head.len() implies !pred(#[trigger] head[i]) by {
        assert(head[i] == periods[i]);
    }
    assert forall|i: int| 0 <= i < tail.len() implies !pred(#[trigger] tail[i]) by {
        assert(tail[i] == periods[hi + i]);
    }
    assert forall|i: int| 0 <= i < run.len() implies pred(#[trigger] run[i]) by {
        assert(run[i] == periods[lo + i]);
    }
    head.lemma_all_neg_filter_empty(pred);
    tail.lemma_all_neg_filter_empty(pred);
    lemma_filter_keeps_all(run, pred);
    Seq::filter_distributes_over_add(head + run, tail, pred);
    Seq::filter_distributes_over_add(head, run, pred);
    assert(head.filter(pred) + run.filter(pred) + tail.filter(pred) =~= run);
}

/// Rounds an amount of price-seconds to the nearest price.
pub fn round_to_price(amount: i128) -> (price: Price)
    ensures
        price == nearest_price(amount as int),
{
    let day: i128 = PERIOD_LENGTH as i128;
    if amount <= 0 {
        0
    } else if amount >= (Price::MAX as i128) * day + day / 2 {
        Price::MAX
    } else {
        ((2 * amount + day) / (2 * day)) as Price
    }
}

/// The price of `[begin, end)` over `run`, for `run` the periods that the
/// interval touches: see [`price_seconds`] and [`nearest_price`].
pub fn run_price(run: &[PeriodPrice], begin: Timestamp, end: Timestamp) -> (sum: Price)
    ensures
        sum == nearest_price(price_seconds(run@, begin as int, end as int)),
{
    let n: usize = run.len();
    let mut total: u128 = 0;
    let mut i: usize = 0;
    while i < n
        invariant
            i <= n,
            n == run@.len(),
            total == price_total(run@.take(i as int)),
            total <= 65_535 * i,
        decreases n - i,
    {
        total = total + run[i].price as u128;
        i = i + 1;
        proof {
            assert(run@.take(i as int).drop_last() =~= run@.take(i - 1));
        }
    }
    proof {
        assert(run@.take(n as int) =~= run@);
    }
    let day: i128 = PERIOD_LENGTH as i128;
    let mut amount: i128 = total as i128 * day;
    let mut from: i128 = begin as i128;
    let mut to: i128 = end as i128;
    if n > 0 {
        let first: PeriodPrice = run[0];
        let last: PeriodPrice = run[n - 1];
        if first.begin < begin {
            let seconds: i128 = (begin - first.begin) as i128;
            let price: i128 = first.price as i128;
            assert(0 <= seconds * price <= 0xffff_ffff * 0xffff) by (nonlinear_arith)
                requires
                    0 <= seconds <= 0xffff_ffff,
                    0 <= price <= 0xffff,
            ;
            amount = amount - seconds * price;
            from = first.begin as i128;
        }
        let stop: i128 = last.begin as i128 + day;
        if to < stop {
            let seconds: i128 = stop - to;
            let price: i128 = last.price as i128;
            assert(0 <= seconds * price <= 0x1_0001_517f * 0xffff) by (nonlinear_arith)
                requires
                    0 <= seconds <= 0x1_0001_517f,
                    0 <= price <= 0xffff,
            ;
            amount = amount - seconds * price;
            to = stop;
        }
    }
    let unpriced: i128 = to - from - n as i128 * day;
    let fill: i128 = DEFAULT_PRICE as i128;
    assert(unpriced * fill == unpriced) by (nonlinear_arith)
        requires
            fill == 1,
    ;
    amount = amount + unpriced * fill;
    round_to_price(amount)
}

impl View for PriceCalendar {
    type V = Seq<PeriodPrice>;

    open spec fn view(&self) -> Seq<PeriodPrice> {
        self.data@
    }
}

impl PriceCalendar {
    /// Appends a period. It is the caller who keeps the calendar ordered: it
    /// stays so when the period starts where the last one stops, or later.
    pub fn add(&mut self, period_price: PeriodPrice)
        ensures
            final(self)@ == old(self)@.push(period_price),
            ordered(old(self)@) && (old(self)@.len() == 0 || old(self)@.last().spec_end()
                <= period_price.begin) ==> ordered(final(self)@),
    {
        proof {
            if ordered(self@) && (self@.len() == 0 || self@.last().spec_end()
                <= period_price.begin) {
                lemma_push_keeps_ordered(self@, period_price);
            }
        }
        self.data.push(period_price)
    }

    /// Whether the calendar is ordered, found by going through it once.
    pub fn is_ordered(&self) -> (r: bool)
        ensures
            r == ordered(self@),
    {
        let mut i: usize = 1;
        while i < self.data.len()
            invariant
                1 <= i,
                forall|k: int|
                    0 <= k < i - 1 && k < self@.len() - 1 ==> (#[trigger] self@[k]).spec_end()
                        <= self@[k + 1].begin,
            decreases self@.len() - i,
        {
            let stop: u64 = self.data[i - 1].begin as u64 + PERIOD_LENGTH as u64;
            if stop > self.data[i].begin as u64 {
                assert(!(self@[i - 1].spec_end() <= self@[i as int].begin));
                return false;
            }
            i = i + 1;
        }
        proof {
            lemma_ordered_by_neighbours(self@);
        }
        true
    }

    /// Index of the first period that has not stopped at `instant`: the one
    /// that covers it, or else the first that starts after it. Found by
    /// bisection with [`PeriodPrice::locate`].
    pub fn first_reaching(&self, instant: Timestamp) -> (idx: usize)
        ensures
            idx <= self@.len(),
            idx < self@.len() ==> self@[idx as int].spec_end() > instant,
            ordered(self@) ==> forall|i: int|
                0 <= i < self@.len() ==> (i < idx <==> (#[trigger] self@[i]).spec_end()
                    <= instant),
    {
        let mut lo: usize = 0;
        let mut hi: usize = self.data.len();
        while lo < hi
            invariant
                lo <= hi <= self@.len(),
                hi < self@.len() ==> self@[hi as int].spec_end() > instant,
                ordered(self@) ==> forall|i: int|
                    0 <= i < lo ==> (#[trigger] self@[i]).spec_end() <= instant,
                ordered(self@) ==> forall|i: int|
                    hi <= i < self@.len() ==> (#[trigger] self@[i]).spec_end() > instant,
            decreases hi - lo,
        {
            let mid: usize = lo + (hi - lo) / 2;
            match self.data[mid].locate(instant) {
                Placement::Before => {
                    lo = mid + 1;
                },
                Placement::Covers => {
                    return mid;
                },
                Placement::After => {
                    hi = mid;
                },
            }
        }
        lo
    }

    /// The bounds `(lo, hi)` of the run of periods that `[begin, end)`
    /// touches. The run starts at [`Self::first_reaching`] of `begin` and
    /// goes on while a period starts before `end`.
    pub fn touched_bounds(&self, begin: Timestamp, end: Timestamp) -> (bounds: (usize, usize))
        ensures
            bounds.0 <= bounds.1 <= self@.len(),
            forall|i: int| bounds.0 <= i < bounds.1 ==> (#[trigger] self@[i]).begin < end,
            bounds.0 < bounds.1 ==> self@[bounds.0 as int].spec_end() > begin,
            bounds.1 < self@.len() ==> self@[bounds.1 as int].begin >= end,
            ordered(self@) ==> forall|i: int|
                0 <= i < self@.len() ==> (i < bounds.0 <==> (#[trigger] self@[i]).spec_end()
                    <= begin),
            ordered(self@) ==> forall|i: int|
                0 <= i < self@.len() ==> (bounds.0 <= i < bounds.1 <==> (#[trigger] self@[i]).overlaps(
                    begin as int,
                    end as int,
                )),
            ordered(self@) ==> self@.subrange(bounds.0 as int, bounds.1 as int) == touched(
                self@,
                begin as int,
                end as int,
            ),
    {
        let lo: usize = self.first_reaching(begin);
        let mut hi: usize = lo;
        while hi < self.data.len() && self.data[hi].begin < end
            invariant
                lo <= hi <= self@.len(),
                forall|i: int| lo <= i < hi ==> (#[trigger] self@[i]).begin < end,
            decreases self@.len() - hi,
        {
            hi = hi + 1;
        }
        proof {
            if ordered(self@) {
                assert forall|i: int| 0 <= i < self@.len() implies (lo <= i < hi <==> (
                #[trigger] self@[i]).overlaps(begin as int, end as int)) by {
                    if i >= hi {
                        assert(self@[hi as int].begin >= end);
                        if i > hi {
                            assert(self@[hi as int].spec_end() <= self@[i].begin);
                        }
                    }
                }
                lemma_touched_is_run(self@, begin as int, end as int, lo as int, hi as int);
            }
        }
        (lo, hi)
    }

    /// The periods that `[begin, end)` touches, in their stored order: of an
    /// ordered calendar they are one run of it, which is handed out as it
    /// lies there.
    pub fn proportional_period_prices(&self, begin: Timestamp, end: Timestamp) -> (run: &[PeriodPrice])
        ensures
            exists|lo: int, hi: int|
                0 <= lo <= hi <= self@.len() && run@ == #[trigger] self@.subrange(lo, hi),
            ordered(self@) ==> run@ == touched(self@, begin as int, end as int),
    {
        let (lo, hi) = self.touched_bounds(begin, end);
        vstd::slice::slice_subrange(self.data.as_slice(), lo, hi)
    }

    /// The price of `[begin, end)`: each period that the interval touches
    /// counts for the part of it that lies inside, and every day of the
    /// interval that no period covers for the default price.
    pub fn proportional_sum(&self, begin: Timestamp, end: Timestamp) -> (sum: Price)
        ensures
            exists|lo: int, hi: int|
                0 <= lo <= hi <= self@.len() && sum == nearest_price(
                    price_seconds(#[trigger] self@.subrange(lo, hi), begin as int, end as int),
                ),
            ordered(self@) ==> sum == nearest_price(
                price_seconds(touched(self@, begin as int, end as int), begin as int, end as int),
            ),
    {
        run_price(self.proportional_period_prices(begin, end), begin, end)
    }
}

} // verus!
