pub mod device;
pub mod framing;
pub mod safety;
