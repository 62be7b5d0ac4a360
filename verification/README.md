# sensor_logger

Logic of a sensor logger for a Milk-V Duo board, verified with Verus.

- `src/mpu6050`: the MPU6050 register map, bit-field writes into a
  configuration register (`bits::set_bits`) and decoding of the sensor's
  16-bit two's-complement readings (`utils`).
- `src/neo6m`: cutting serial data into NMEA sentences (`framing`), the
  texts the NMEA parser takes without panicking (`safety`), and turning the
  parser's messages into report lines (`device::NEO6M`).
- `src/sensor_log.rs`: the GPS lines written to the CSV log.
- `src/one_wire_bus`: the 1-Wire error type.
- `app/`: the program around it: I2C, serial port, SPI and SD card I/O, the
  floating-point scaling of readings, and the main loop.
