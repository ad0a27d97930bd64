pub mod derived;
pub mod gpu;
pub mod sorted;
pub mod world;
