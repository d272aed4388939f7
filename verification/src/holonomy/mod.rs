pub mod chiral;
pub mod samr;
pub mod solver;
pub mod temporal_mirror;
pub mod twist;
