//! Result sets of a tabular database, made ready for a host application.
//!
//! A decoder of the wire protocol reports a result set as a list of columns
//! followed by one typed cell after the other ([`sink`]). The two collectors
//! of this crate take those events: [`collector::JsRowCollector`] boxes each
//! cell and cuts the cells into rows, [`binary::FastRowCollector`] writes them
//! into one self-describing binary buffer in which each distinct text stands
//! once; [`layout`] says how such a buffer is read back. Dates, times and
//! fixed-point numbers are rendered as text by [`types`], and [`params`]
//! writes the arguments of a statement into its text as literals. [`config`]
//! reads connection strings, and [`client`] holds what a client decides
//! around a statement.
//!
//! Floating-point numbers cross this crate as the bits of their IEEE-754
//! doubles; see [`ieee`].

pub mod binary;
pub mod calendar;
pub mod client;
pub mod collector;
pub mod columns;
pub mod config;
pub mod guid;
pub mod ieee;
pub mod layout;
pub mod params;
pub mod sink;
pub mod text;
pub mod types;
pub mod value;
