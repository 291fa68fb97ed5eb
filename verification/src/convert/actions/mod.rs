pub mod crop;
pub mod downscale;
pub mod remove_islands;
