pub mod assoc;
pub mod bytes;
pub mod crypto;
pub mod dht;
pub mod display;
pub mod epoch;
pub mod geoid;
pub mod holonomy;
pub mod layers;
pub mod net;
pub mod node;
pub mod num;
pub mod types;
