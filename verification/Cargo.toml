[package]
name = "sensor_logger"
version = "0.1.0"
edition = "2021"
publish = false

[dependencies]
nmea-parser = "=0.11.0"
chrono = "=0.4.45"
embedded-hal = "=1.0.0"
embedded-sdmmc = "=0.8.2"
i2cdev = "=0.6.2"
libm = "=0.2.16"
linux-embedded-hal = "=0.4.1"
nalgebra = "=0.33.3"
owo-colors = "=4.4.0"
serialport = { version = "=4.10.1", default-features = false }
ublox = "=0.4.5"
