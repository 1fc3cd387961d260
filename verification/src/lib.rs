//! Data model, loading, statistics and chart data for an archive-analysis
//! dashboard.

pub mod calendar;
pub mod charts;
pub mod models;
pub mod state;
pub mod text;
