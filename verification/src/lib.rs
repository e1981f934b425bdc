//! Range-aggregate price queries over per-item calendars of day-long priced
//! periods.
//!
//! A [`PriceCalendar`] holds the periods of one item in ascending order. Two
//! queries are answered over it: which periods a time interval touches, and
//! what the interval costs when each touched period is charged in proportion
//! to the part of it that lies inside, and each day that no period covers is
//! charged the default price.

pub mod calendar_facts;
pub mod price_calendar;
pub mod yield_index;

pub use price_calendar::{
    PeriodPrice, Placement, Price, PriceCalendar, Timestamp, DEFAULT_PRICE, PERIOD_LENGTH,
};
pub use yield_index::{Identifier, PriceRecord, UnknownItem, YieldIndices};
