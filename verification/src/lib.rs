//! Register-level logic of a small sensor logger: bit-field updates and
//! two's-complement decoding for an MPU6050, NMEA framing and reporting for a
//! NEO-6M GPS receiver, and the log lines the logger writes.

pub mod mpu6050;
pub mod neo6m;
pub mod one_wire_bus;
pub mod sensor_log;
