pub mod mc_lz;
pub mod tokens;
