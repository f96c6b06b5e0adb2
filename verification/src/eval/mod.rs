pub mod score_pair;
pub mod params;
pub mod sums;
pub mod evaluate;
pub mod total;
pub mod mobility;
pub mod mirror;
