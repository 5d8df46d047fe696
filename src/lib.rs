//! Generation of synthetic weather-station measurement data: argument
//! checking, station-name loading, size estimation and record formatting.
pub mod text;
pub mod report;
pub mod args;
pub mod order;
pub mod names;
pub mod generate;
