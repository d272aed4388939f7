pub mod routing;
pub mod storage;
