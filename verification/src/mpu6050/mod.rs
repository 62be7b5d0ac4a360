pub mod bits;
pub mod device;
pub mod utils;
