//! Consistency checks for reported summary statistics: whether a mean, a standard
//! deviation or a proportion could have come from whole-number data of the stated size.
//! Reported numbers are handled as exact decimals, so no rounding error of binary floats
//! enters a verdict.
pub mod bounds;
pub mod debit;
pub mod decimal;
pub mod grim;
pub mod grim_stats;
pub mod grim_u;
pub mod grimmer;
pub mod rounding;
pub mod sd_binary;
pub mod sqrt_round;
