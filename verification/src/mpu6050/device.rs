//! MPU6050 register map: addresses, configuration fields and their settings.

use vstd::prelude::*;

use crate::mpu6050::bits::{field_value, low_mask, spec_set_bits, valid_field};

verus! {

/// I2C address of the sensor, also what the WHO_AM_I register reads.
pub const SLAVE_ADDR: u8 = 0x68;

/// WHO_AM_I register.
pub const WHOAMI: u8 = 0x75;

/// Power management register; writing `PWR_MGMT_1_WAKE` wakes the sensor.
pub const PWR_MGMT_1_ADDR: u8 = 0x6b;

/// Value written to `PWR_MGMT_1_ADDR` to leave sleep mode.
pub const PWR_MGMT_1_WAKE: u8 = 0x01;

/// High byte of the accelerometer's X reading; Y and Z follow.
pub const ACC_REGX_H: u8 = 0x3b;

/// High byte of the temperature reading.
pub const TEMP_OUT_H: u8 = 0x41;

/// High byte of the gyroscope's X reading; Y and Z follow.
pub const GYRO_REGX_H: u8 = 0x43;

/// Accelerometer configuration register.
pub const ACCEL_CONFIG_ADDR: u8 = 0x1c;

/// Highest bit of the accelerometer full-scale field.
pub const ACCEL_CONFIG_FS_SEL_BIT: u8 = 4;

/// Width of the accelerometer full-scale field.
pub const ACCEL_CONFIG_FS_SEL_LENGTH: u8 = 2;

/// Highest bit of the accelerometer high-pass filter field.
pub const ACCEL_CONFIG_ACCEL_HPF_BIT: u8 = 2;

/// Width of the accelerometer high-pass filter field.
pub const ACCEL_CONFIG_ACCEL_HPF_LENGTH: u8 = 3;

/// Gyroscope configuration register.
pub const GYRO_CONFIG_ADDR: u8 = 0x1b;

/// Highest bit of the gyroscope full-scale field.
pub const GYRO_CONFIG_FS_SEL_BIT: u8 = 4;

/// Width of the gyroscope full-scale field.
pub const GYRO_CONFIG_FS_SEL_LENGTH: u8 = 2;

/// Full-scale range of the accelerometer, in g.
#[derive(Clone, Copy, Debug)]
pub enum AccelRange {
    G2,
    G4,
    G8,
    G16,
}

/// Full-scale range of the gyroscope, in degrees per second.
#[derive(Clone, Copy, Debug)]
pub enum GyroRange {
    D250,
    D500,
    D1000,
    D2000,
}

/// Cut-off setting of the accelerometer's digital high-pass filter.
#[allow(non_camel_case_types)]
#[derive(Clone, Copy, Debug)]
pub enum ACCEL_HPF {
    _RESET,
    _5,
    _2P5,
    _1P25,
    _0P63,
    _HOLD,
}

impl AccelRange {
    /// The value of the full-scale field that selects this range.
    pub open spec fn spec_code(self) -> u8 {
        match self {
            AccelRange::G2 => 0,
            AccelRange::G4 => 1,
            AccelRange::G8 => 2,
            AccelRange::G16 => 3,
        }
    }

    /// The value of the full-scale field that selects this range.
    pub fn code(&self) -> (c: u8)
        ensures
            c == self.spec_code(),
    {
        match self {
            AccelRange::G2 => 0,
            AccelRange::G4 => 1,
            AccelRange::G8 => 2,
            AccelRange::G16 => 3,
        }
    }
}

impl GyroRange {
    /// The value of the full-scale field that selects this range.
    pub open spec fn spec_code(self) -> u8 {
        match self {
            GyroRange::D250 => 0,
            GyroRange::D500 => 1,
            GyroRange::D1000 => 2,
            GyroRange::D2000 => 3,
        }
    }

    /// The value of the full-scale field that selects this range.
    pub fn code(&self) -> (c: u8)
        ensures
            c == self.spec_code(),
    {
        match self {
            GyroRange::D250 => 0,
            GyroRange::D500 => 1,
            GyroRange::D1000 => 2,
            GyroRange::D2000 => 3,
        }
    }
}

impl ACCEL_HPF {
    /// The value of the high-pass filter field that selects this mode.
    pub open spec fn spec_code(self) -> u8 {
        match self {
            ACCEL_HPF::_RESET => 0,
            ACCEL_HPF::_5 => 1,
            ACCEL_HPF::_2P5 => 2,
            ACCEL_HPF::_1P25 => 3,
            ACCEL_HPF::_0P63 => 4,
            ACCEL_HPF::_HOLD => 7,
        }
    }

    /// The value of the high-pass filter field that selects this mode.
    pub fn code(&self) -> (c: u8)
        ensures
            c == self.spec_code(),
    {
        match self {
            ACCEL_HPF::_RESET => 0,
            ACCEL_HPF::_5 => 1,
            ACCEL_HPF::_2P5 => 2,
            ACCEL_HPF::_1P25 => 3,
            ACCEL_HPF::_0P63 => 4,
            ACCEL_HPF::_HOLD => 7,
        }
    }
}

/// A value that fits a field of `length` bits reads back unchanged after it is
/// written there.
proof fn lemma_fitting_value_reads_back(byte: u8, bit_start: u8, length: u8, code: u8)
    requires
        valid_field(bit_start, length),
        bit_start < 8,
        code < (1u8 << length),
    ensures
        field_value(
            spec_set_bits(byte, bit_start, length, code),
            crate::mpu6050::bits::field_shift(bit_start, length) as u8,
            length,
        ) == code,
{
    crate::mpu6050::bits::lemma_set_bits_reads_back(byte, bit_start, length, code);
    assert(code & low_mask(length) == code) by (bit_vector)
        requires
            length < 8,
            code < (1u8 << length),
    ;
}

/// Writing an accelerometer range into ACCEL_CONFIG's full-scale field and
/// reading that field back gives the range's code: each range is stored, and
/// told apart from the others, exactly.
pub proof fn lemma_accel_range_reads_back(config: u8, range: AccelRange)
    ensures
        field_value(
            spec_set_bits(
                config,
                ACCEL_CONFIG_FS_SEL_BIT,
                ACCEL_CONFIG_FS_SEL_LENGTH,
                range.spec_code(),
            ),
            3,
            ACCEL_CONFIG_FS_SEL_LENGTH,
        ) == range.spec_code(),
{
    assert(1u8 << 2u8 == 4) by (bit_vector);
    lemma_fitting_value_reads_back(
        config,
        ACCEL_CONFIG_FS_SEL_BIT,
        ACCEL_CONFIG_FS_SEL_LENGTH,
        range.spec_code(),
    );
}

/// Writing a gyroscope range into GYRO_CONFIG's full-scale field and reading
/// that field back gives the range's code.
pub proof fn lemma_gyro_range_reads_back(config: u8, range: GyroRange)
    ensures
        field_value(
            spec_set_bits(config, GYRO_CONFIG_FS_SEL_BIT, GYRO_CONFIG_FS_SEL_LENGTH, range.spec_code()),
            3,
            GYRO_CONFIG_FS_SEL_LENGTH,
        ) == range.spec_code(),
{
    assert(1u8 << 2u8 == 4) by (bit_vector);
    lemma_fitting_value_reads_back(
        config,
        GYRO_CONFIG_FS_SEL_BIT,
        GYRO_CONFIG_FS_SEL_LENGTH,
        range.spec_code(),
    );
}

/// Writing a high-pass filter mode into ACCEL_CONFIG's filter field and
/// reading that field back gives the mode's code.
pub proof fn lemma_accel_hpf_reads_back(config: u8, mode: ACCEL_HPF)
    ensures
        field_value(
            spec_set_bits(
                config,
                ACCEL_CONFIG_ACCEL_HPF_BIT,
                ACCEL_CONFIG_ACCEL_HPF_LENGTH,
                mode.spec_code(),
            ),
            0,
            ACCEL_CONFIG_ACCEL_HPF_LENGTH,
        ) == mode.spec_code(),
{
    assert(1u8 << 3u8 == 8) by (bit_vector);
    lemma_fitting_value_reads_back(
        config,
        ACCEL_CONFIG_ACCEL_HPF_BIT,
        ACCEL_CONFIG_ACCEL_HPF_LENGTH,
        mode.spec_code(),
    );
}

/// The full-scale and high-pass filter fields of ACCEL_CONFIG do not overlap:
/// setting the range keeps the filter mode and setting the filter mode keeps
/// the range.
pub proof fn lemma_accel_config_fields_independent(config: u8, range: AccelRange, mode: ACCEL_HPF)
    ensures
        field_value(
            spec_set_bits(config, ACCEL_CONFIG_FS_SEL_BIT, ACCEL_CONFIG_FS_SEL_LENGTH, range.spec_code()),
            0,
            ACCEL_CONFIG_ACCEL_HPF_LENGTH,
        ) == field_value(config, 0, ACCEL_CONFIG_ACCEL_HPF_LENGTH),
        field_value(
            spec_set_bits(config, ACCEL_CONFIG_ACCEL_HPF_BIT, ACCEL_CONFIG_ACCEL_HPF_LENGTH, mode.spec_code()),
            3,
            ACCEL_CONFIG_FS_SEL_LENGTH,
        ) == field_value(config, 3, ACCEL_CONFIG_FS_SEL_LENGTH),
{
    let r = range.spec_code();
    let m = mode.spec_code();
    assert(field_value(crate::mpu6050::bits::with_field(config, 3, 2, r), 0, 3) == field_value(
        config,
        0,
        3,
    )) by (bit_vector);
    assert(field_value(crate::mpu6050::bits::with_field(config, 0, 3, m), 3, 2) == field_value(
        config,
        3,
        2,
    )) by (bit_vector);
}

/// Each range has its own code, and a wider range a larger one; every code
/// fits the two-bit full-scale field.
pub proof fn lemma_range_codes_ordered()
    ensures
        AccelRange::G2.spec_code() < AccelRange::G4.spec_code(),
        AccelRange::G4.spec_code() < AccelRange::G8.spec_code(),
        AccelRange::G8.spec_code() < AccelRange::G16.spec_code(),
        AccelRange::G16.spec_code() < 4,
        GyroRange::D250.spec_code() < GyroRange::D500.spec_code(),
        GyroRange::D500.spec_code() < GyroRange::D1000.spec_code(),
        GyroRange::D1000.spec_code() < GyroRange::D2000.spec_code(),
        GyroRange::D2000.spec_code() < 4,
{
}

/// Each filter mode has its own code, a longer time constant a larger one,
/// with hold above them all; every code fits the three-bit filter field.
pub proof fn lemma_accel_hpf_codes_ordered()
    ensures
        ACCEL_HPF::_RESET.spec_code() < ACCEL_HPF::_5.spec_code(),
        ACCEL_HPF::_5.spec_code() < ACCEL_HPF::_2P5.spec_code(),
        ACCEL_HPF::_2P5.spec_code() < ACCEL_HPF::_1P25.spec_code(),
        ACCEL_HPF::_1P25.spec_code() < ACCEL_HPF::_0P63.spec_code(),
        ACCEL_HPF::_0P63.spec_code() < ACCEL_HPF::_HOLD.spec_code(),
        ACCEL_HPF::_HOLD.spec_code() < 8,
{
}

} // verus!
