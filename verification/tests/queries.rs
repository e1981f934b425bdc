use oxyde::price_calendar::{round_to_price, run_price};
use oxyde::{PeriodPrice, Placement, PriceCalendar, DEFAULT_PRICE, PERIOD_LENGTH};

const DAY: u32 = PERIOD_LENGTH;

fn period(day: u32, price: u16) -> PeriodPrice {
    PeriodPrice {
        begin: day * DAY,
        price,
    }
}

fn two_days() -> PriceCalendar {
    PriceCalendar {
        data: vec![period(4, 10), period(6, 20)],
    }
}

fn four_days() -> PriceCalendar {
    PriceCalendar {
        data: vec![period(1, 10), period(7, 20), period(9, 30), period(12, 40)],
    }
}

#[test]
fn constants_are_a_day_and_one_unit() {
    assert_eq!(PERIOD_LENGTH, 86_400);
    assert_eq!(DEFAULT_PRICE, 1);
}

#[test]
fn getters_give_the_fields_and_the_next_start() {
    let p = period(4, 10);
    assert_eq!(p.begin(), 345_600);
    assert_eq!(p.end(), 432_000);
    assert_eq!(p.price(), 10);
}

#[test]
fn locate_follows_the_three_cases() {
    let p = period(4, 10);
    assert_eq!(p.locate(4 * DAY - 1), Placement::After);
    assert_eq!(p.locate(4 * DAY), Placement::Covers);
    assert_eq!(p.locate(4 * DAY + 1), Placement::Covers);
    assert_eq!(p.locate(5 * DAY - 1), Placement::Covers);
    assert_eq!(p.locate(5 * DAY), Placement::Before);
    assert_eq!(p.locate(u32::MAX), Placement::Before);
}

#[test]
fn locate_copes_with_a_period_that_runs_past_the_last_timestamp() {
    let p = PeriodPrice {
        begin: u32::MAX - 10,
        price: 3,
    };
    assert_eq!(p.locate(u32::MAX), Placement::Covers);
    assert_eq!(p.locate(u32::MAX - 10), Placement::Covers);
    assert_eq!(p.locate(u32::MAX - 11), Placement::After);
}

#[test]
fn add_appends_in_arrival_order() {
    let mut index = PriceCalendar { data: vec![] };
    index.add(period(9, 30));
    index.add(period(1, 10));
    assert_eq!(index.data, vec![period(9, 30), period(1, 10)]);
}

#[test]
fn first_reaching_finds_the_covering_or_the_next_period() {
    let index = four_days();
    assert_eq!(index.first_reaching(0), 0);
    assert_eq!(index.first_reaching(DAY), 0);
    assert_eq!(index.first_reaching(2 * DAY - 1), 0);
    assert_eq!(index.first_reaching(2 * DAY), 1);
    assert_eq!(index.first_reaching(8 * DAY), 2);
    assert_eq!(index.first_reaching(9 * DAY + 5), 2);
    assert_eq!(index.first_reaching(12 * DAY + DAY / 2), 3);
    assert_eq!(index.first_reaching(13 * DAY), 4);
    assert_eq!(PriceCalendar { data: vec![] }.first_reaching(5), 0);
}

#[test]
fn touched_bounds_name_the_run() {
    let index = four_days();
    assert_eq!(index.touched_bounds(9 * DAY, 10 * DAY), (2, 3));
    assert_eq!(index.touched_bounds(0, 3 * DAY), (0, 1));
    assert_eq!(index.touched_bounds(0, DAY), (0, 0));
    assert_eq!(index.touched_bounds(7 * DAY + 1, 12 * DAY + 1), (1, 4));
    assert_eq!(index.touched_bounds(13 * DAY, 14 * DAY), (4, 4));
}

#[test]
fn the_run_is_contiguous_and_in_calendar_order() {
    let index = four_days();
    let run = index.proportional_period_prices(DAY + 10, 9 * DAY + 1);
    assert_eq!(run, &index.data[0..3]);
    let all = index.proportional_period_prices(0, u32::MAX);
    assert_eq!(all, &index.data[..]);
}

#[test]
fn a_whole_period_is_found_alone() {
    let index = four_days();
    assert_eq!(
        index.proportional_period_prices(7 * DAY, 8 * DAY),
        &[period(7, 20)]
    );
    assert_eq!(index.proportional_sum(7 * DAY, 8 * DAY), 20);
}

#[test]
fn a_query_past_the_end_of_a_period_leaves_it_out() {
    let index = four_days();
    assert!(index
        .proportional_period_prices(8 * DAY, 8 * DAY + 1)
        .is_empty());
    assert!(index
        .proportional_period_prices(8 * DAY + 1, 9 * DAY)
        .is_empty());
    assert_eq!(
        index.proportional_period_prices(8 * DAY - 1, 8 * DAY),
        &[period(7, 20)]
    );
}

#[test]
fn a_query_before_every_period_costs_the_default_per_day() {
    let index = PriceCalendar {
        data: vec![period(4, 10), period(7, 20), period(9, 30), period(12, 40)],
    };
    assert!(index.proportional_period_prices(0, 3 * DAY).is_empty());
    assert_eq!(index.proportional_sum(0, 3 * DAY), 3 * DEFAULT_PRICE);
}

#[test]
fn part_of_a_period_is_charged_in_proportion() {
    let index = PriceCalendar {
        data: vec![period(4, 100)],
    };
    assert_eq!(index.proportional_sum(4 * DAY, 4 * DAY + DAY / 4), 25);
    assert_eq!(index.proportional_sum(4 * DAY + DAY / 4, 5 * DAY), 75);
    assert_eq!(
        index.proportional_sum(4 * DAY + DAY / 4, 4 * DAY + DAY / 2),
        25
    );
    // 100 * 432 / 86400 is exactly one half, which goes up.
    assert_eq!(index.proportional_sum(4 * DAY, 4 * DAY + 432), 1);
    assert_eq!(index.proportional_sum(4 * DAY, 4 * DAY + 431), 0);
}

#[test]
fn repeated_queries_agree() {
    let index = two_days();
    let first = index.proportional_sum(2 * DAY, 7 * DAY);
    let second = index.proportional_sum(2 * DAY, 7 * DAY);
    assert_eq!(first, second);
    assert_eq!(first, 33);
    assert_eq!(
        index.proportional_period_prices(2 * DAY, 7 * DAY),
        index.proportional_period_prices(2 * DAY, 7 * DAY)
    );
}

#[test]
fn an_empty_calendar_costs_the_default() {
    let index = PriceCalendar { data: vec![] };
    assert!(index.proportional_period_prices(0, 10 * DAY).is_empty());
    assert_eq!(index.proportional_sum(0, 10 * DAY), 10);
    assert_eq!(index.proportional_sum(0, DAY / 2), 1);
    assert_eq!(index.proportional_sum(0, DAY / 2 - 1), 0);
}

#[test]
fn run_price_applies_the_formula_to_the_run_it_is_given() {
    let run = [period(4, 10), period(6, 20)];
    // 30 for the two periods and 1 for the day between them.
    assert_eq!(run_price(&run, 4 * DAY, 7 * DAY), 31);
    // Half of each period is outside: 30 - 5 - 10 + 1.
    assert_eq!(run_price(&run, 4 * DAY + DAY / 2, 6 * DAY + DAY / 2), 16);
    assert_eq!(run_price(&[], 0, 2 * DAY), 2);
}

#[test]
fn round_to_price_goes_to_the_nearest_unit_and_stays_in_range() {
    assert_eq!(round_to_price(0), 0);
    assert_eq!(round_to_price(-1), 0);
    assert_eq!(round_to_price(-86_400_000), 0);
    assert_eq!(round_to_price(43_199), 0);
    assert_eq!(round_to_price(43_200), 1);
    assert_eq!(round_to_price(86_400), 1);
    assert_eq!(round_to_price(129_599), 1);
    assert_eq!(round_to_price(129_600), 2);
    assert_eq!(round_to_price(65_535 * 86_400), 65_535);
    assert_eq!(round_to_price(65_536 * 86_400), u16::MAX);
    assert_eq!(round_to_price(1 << 100), u16::MAX);
}

#[test]
fn a_sum_above_the_price_range_is_capped() {
    let index = PriceCalendar {
        data: vec![period(1, 40_000), period(2, 40_000)],
    };
    assert_eq!(index.proportional_sum(DAY, 3 * DAY), u16::MAX);
}

#[test]
fn the_last_period_may_run_past_the_last_timestamp() {
    let begin = u32::MAX - DAY / 2;
    let index = PriceCalendar {
        data: vec![PeriodPrice { begin, price: 50 }],
    };
    assert_eq!(
        index.proportional_period_prices(begin, u32::MAX),
        &index.data[..]
    );
    // 43200 of the 86400 seconds lie inside: half the price.
    assert_eq!(index.proportional_sum(begin, u32::MAX), 25);
}

#[test]
fn is_ordered_tells_ascending_calendars_from_others() {
    assert!(PriceCalendar { data: vec![] }.is_ordered());
    assert!(two_days().is_ordered());
    assert!(four_days().is_ordered());
    // Periods may touch, but not overlap.
    assert!(PriceCalendar {
        data: vec![period(4, 10), period(5, 20)],
    }
    .is_ordered());
    assert!(!PriceCalendar {
        data: vec![
            period(4, 10),
            PeriodPrice {
                begin: 5 * DAY - 1,
                price: 20
            }
        ],
    }
    .is_ordered());
    assert!(!PriceCalendar {
        data: vec![period(6, 10), period(4, 20)],
    }
    .is_ordered());
    assert!(!PriceCalendar {
        data: vec![period(4, 10), period(4, 10)],
    }
    .is_ordered());
}
