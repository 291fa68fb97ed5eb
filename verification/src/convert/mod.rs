pub mod actions;
pub mod config;
pub mod lock;
pub mod lockfile;
pub mod openslide;

pub use actions::crop::crop;
pub use actions::downscale::downscale;
pub use actions::remove_islands::remove_islands;
pub use config::Config;
pub use lock::Lock;
pub use lockfile::LockFile;
