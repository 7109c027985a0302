//! Descriptive statistics over length distributions (N50, N90), integer
//! sums behind the means, absolute differences, and a reproducible
//! linear-congruential sequence generator.
pub mod length_stats;
pub mod numeric;
pub mod random;

pub use length_stats::{n50, n90};
pub use numeric::{abs_diff, sum_of, sum_of_squares};
pub use random::make_random_vec;
