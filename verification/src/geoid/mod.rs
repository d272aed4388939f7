pub mod circulation;
pub mod model;
