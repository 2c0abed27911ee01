pub mod circuits;
pub mod field;
pub mod multilinear;
pub mod sum_check;
pub mod transcript;
pub mod univariate;
