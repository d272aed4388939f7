pub mod message;
pub mod transport;
pub mod topology;
