pub mod units;
pub mod chance;
pub mod pig;
pub mod decimal;
pub mod config;
pub mod fence;
pub mod sim;
pub mod farm;
pub mod show;
pub mod report;
