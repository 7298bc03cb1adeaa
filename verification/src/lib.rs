//! Monitoring of the traffic behind the interfaces of a router.
//!
//! Once a second, `collect` makes a snapshot of counters and neighbours. `history` keeps the last
//! samples of every interface and device, and `histogram` gathers them into hours of local time,
//! with `hours`, `calendar` and `counters` below it. `api`, `usage` and `devices` answer requests.
//! `persistence` turns what is known into rows and back.
//!
//! The laws that relate several of these are in modules of their own: `readings` and `presence` for
//! what a snapshot shows, `latest` and `trends` for recent samples, `ingestion`, `rates`, `days`,
//! `sums` and `figures` for hours, days and what they add up to, `windows` and `requests` for what
//! requests are answered, `periods` for local time, and `saved`, `reopening` and `recovery` for what
//! is saved and restored.

pub mod api;
pub mod calendar;
pub mod collect;
pub mod command;
pub mod counters;
pub mod days;
pub mod devices;
pub mod figures;
pub mod histogram;
pub mod history;
pub mod hours;
pub mod ingestion;
pub mod latest;
pub mod lists;
pub mod mac;
pub mod options;
pub mod periods;
pub mod persistence;
pub mod presence;
pub mod rates;
pub mod readings;
pub mod recovery;
pub mod reopening;
pub mod requests;
pub mod runtime;
pub mod saved;
pub mod snapshot;
pub mod sorting;
pub mod stats;
pub mod sums;
pub mod table;
pub mod text;
pub mod topology;
pub mod trends;
pub mod usage;
pub mod windows;
