pub mod blinding;
pub mod group;
pub mod hash;
pub mod pedersen;
pub mod random;
pub mod signatures;
pub mod vdf;
