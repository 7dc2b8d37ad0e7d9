pub mod banking;
pub mod sorting;
pub mod stats;

pub use banking::AccType;
pub use sorting::qsort;
pub use stats::get_mean;
