//! Sales-table aggregation, ranking, monthly trends and promotion matching
//! over grids of typed spreadsheet cells.
//!
//! A sheet comes in as rows of [`cell::Data`]. Its header is resolved to
//! columns ([`columns`]), each data row becomes a record ([`row`]), and the
//! records are aggregated by customer ([`aggregate`], [`customers`]), ranked
//! ([`ranking`]), summed by month ([`trend`]) and offered for picking
//! ([`options`]). Loaded sources are kept and merged by identifier
//! ([`sources`]); sales are matched against promotion policies ([`policy`]).
//!
//! Amounts are exact: a [`decimal::Decimal`] counts millionths of a unit,
//! and sums are held in a [`wide::Wide`], which no number of records can
//! overflow. A whole number of a cell is held as it is; a number written
//! with a fraction or an exponent enters as the decimal literal that
//! denotes it. So the totals of a sheet do not depend on the order of its
//! rows or on how the rows are split over threads.
//!
//! Every function is verified against its contract. What is taken on
//! trust is what `chrono` and `rayon` do: the date arithmetic and the date
//! parsing of `chrono` in [`calendar`], and the calls into `rayon` in
//! [`processor`] and [`policy`], which hand rows to its threads.

pub mod aggregate;
pub mod calendar;
pub mod catalog;
pub mod cell;
pub mod chunks;
pub mod columns;
pub mod customers;
pub mod dates;
pub mod decimal;
pub mod error;
pub mod loading;
pub mod month;
pub mod options;
pub mod policy;
pub mod processor;
pub mod progress;
pub mod ranking;
pub mod row;
pub mod sorted;
pub mod sources;
pub mod sums;
pub mod text;
pub mod trend;
pub mod wide;
