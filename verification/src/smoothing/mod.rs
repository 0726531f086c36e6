pub mod absolute_discount;
pub mod error;
pub mod good_turing;
pub mod interpolation;
pub mod kneser_ney;
pub mod laplace;
pub mod lidstone;
