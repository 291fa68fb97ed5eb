pub mod database;
pub mod meta;
pub mod patches;
pub mod tiles;

pub use database::Database;
pub use meta::SlideData;
