pub mod aws;
pub mod calendar;
pub mod display;
pub mod grouping;
pub mod period;
pub mod ranking;
pub mod summary;
pub mod text;
