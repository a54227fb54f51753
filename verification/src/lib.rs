//! NOAA's HRRR wind forecast for the waters around the boat.

mod big;
pub mod changes;
pub mod client;
pub mod config;
pub mod engine;
pub mod fetch;
pub mod forecast;
pub mod grib;
pub mod grid;
pub mod json;
pub mod keel;
pub mod number;
pub mod obs;
pub mod paths;
pub mod places;
pub mod promises;
pub mod sources;
pub mod text;
pub mod time;
pub mod wmo;
