pub mod layer1;
pub mod layer2;
pub mod layer3;
pub mod valve;
