//! The weather side: reading the FMI Open Data feed into rows, planning the
//! forecast from those rows, and naming the weather condition of a symbol.
pub mod condition;
pub mod feed;
pub mod fmi;
pub mod plan;
pub mod bucket_map;
