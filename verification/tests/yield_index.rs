use oxyde::yield_index::{build, record, search_index, single_price, UnknownItem, YieldIndices};
use oxyde::{PeriodPrice, PERIOD_LENGTH};

const DAY: u32 = PERIOD_LENGTH;

fn stream() -> Vec<(u32, u32, u16)> {
    vec![
        (7, 4 * DAY, 10),
        (8, 4 * DAY, 100),
        (7, 6 * DAY, 20),
        (8, 5 * DAY, 200),
        (9, 6 * DAY, 5),
    ]
}

#[test]
fn build_groups_by_item_in_arrival_order() {
    let indices = build(&stream());
    assert_eq!(indices.len(), 3);
    assert_eq!(
        indices[&7].data,
        vec![
            PeriodPrice {
                begin: 4 * DAY,
                price: 10
            },
            PeriodPrice {
                begin: 6 * DAY,
                price: 20
            },
        ]
    );
    assert_eq!(
        indices[&8].data,
        vec![
            PeriodPrice {
                begin: 4 * DAY,
                price: 100
            },
            PeriodPrice {
                begin: 5 * DAY,
                price: 200
            },
        ]
    );
    assert_eq!(indices[&9].data.len(), 1);
    assert!(!indices.contains_key(&1));
}

#[test]
fn build_of_nothing_is_empty() {
    assert!(build(&[]).is_empty());
}

#[test]
fn build_neither_sorts_nor_drops() {
    let indices = build(&[(1, 9 * DAY, 3), (1, 2 * DAY, 4), (1, 2 * DAY, 4)]);
    let begins: Vec<u32> = indices[&1].data.iter().map(|p| p.begin).collect();
    assert_eq!(begins, vec![9 * DAY, 2 * DAY, 2 * DAY]);
}

#[test]
fn record_makes_the_calendar_on_first_sight() {
    let mut indices = YieldIndices::new();
    record(&mut indices, 3, DAY, 11);
    assert_eq!(indices.len(), 1);
    record(&mut indices, 3, 2 * DAY, 12);
    record(&mut indices, 4, 2 * DAY, 13);
    assert_eq!(indices.len(), 2);
    assert_eq!(indices[&3].data.len(), 2);
    assert_eq!(
        indices[&3].data[1],
        PeriodPrice {
            begin: 2 * DAY,
            price: 12
        }
    );
    assert_eq!(indices[&4].data.len(), 1);
}

#[test]
fn single_price_answers_for_the_item_asked() {
    let indices = build(&stream());
    assert_eq!(single_price(&indices, 7, 4 * DAY, 7 * DAY), Ok(31));
    assert_eq!(single_price(&indices, 8, 4 * DAY, 6 * DAY), Ok(300));
    assert_eq!(
        single_price(&indices, 7, 5 * DAY + DAY / 2, 6 * DAY + DAY / 2),
        Ok(11)
    );
}

#[test]
fn search_index_copies_the_run() {
    let indices = build(&stream());
    assert_eq!(
        search_index(&indices, 8, 5 * DAY, 6 * DAY),
        Ok(vec![PeriodPrice {
            begin: 5 * DAY,
            price: 200
        }])
    );
    assert_eq!(search_index(&indices, 9, 0, DAY), Ok(vec![]));
}

#[test]
fn an_unknown_item_is_an_error() {
    let indices = build(&stream());
    assert_eq!(
        single_price(&indices, 42, 4 * DAY, 5 * DAY),
        Err(UnknownItem { item_id: 42 })
    );
    assert_eq!(
        search_index(&indices, 42, 4 * DAY, 5 * DAY),
        Err(UnknownItem { item_id: 42 })
    );
}

#[test]
fn queries_on_a_built_index_repeat() {
    let indices = build(&stream());
    let once = single_price(&indices, 7, 2 * DAY, 5 * DAY);
    let again = single_price(&indices, 7, 2 * DAY, 5 * DAY);
    assert_eq!(once, Ok(12));
    assert_eq!(once, again);
}
