//! The rewrites that the optimizer knows.

pub mod base;
pub mod multiply;
pub mod reset_val;

pub use self::base::Optimization;
pub use self::multiply::MultiplyOpt;
pub use self::reset_val::ResetValOpt;
