use sensor_logger::mpu6050::bits::set_bits;
use sensor_logger::mpu6050::device::{
    AccelRange, GyroRange, ACCEL_CONFIG_ACCEL_HPF_BIT, ACCEL_CONFIG_ACCEL_HPF_LENGTH,
    ACCEL_CONFIG_FS_SEL_BIT, ACCEL_CONFIG_FS_SEL_LENGTH, ACCEL_HPF,
};
use sensor_logger::mpu6050::utils::{read_rot_words, read_word_2c};

#[test]
fn set_bits_clears_field_keeps_rest() {
    let mut b: u8 = 0xff;
    set_bits(&mut b, 4, 2, 0);
    assert_eq!(b, 0b1110_0111);
}

#[test]
fn set_bits_writes_field() {
    let mut b: u8 = 0;
    set_bits(&mut b, 4, 2, 3);
    assert_eq!(b, 0b0001_1000);
}

#[test]
fn set_bits_truncates_data_to_field_width() {
    let mut b: u8 = 0b1000_0001;
    set_bits(&mut b, 2, 3, 0xff);
    assert_eq!(b, 0b1000_0111);
}

#[test]
fn set_bits_field_below_bit_zero_starts_at_zero() {
    let mut b: u8 = 0b1111_0000;
    set_bits(&mut b, 1, 3, 0b101);
    assert_eq!(b, 0b1111_0101);
}

#[test]
fn set_bits_zero_length_changes_nothing() {
    let mut b: u8 = 0x5a;
    set_bits(&mut b, 5, 0, 0xff);
    assert_eq!(b, 0x5a);
}

#[test]
fn set_bits_last_write_wins() {
    let mut once: u8 = 0x3c;
    set_bits(&mut once, 4, 2, 1);
    let mut twice: u8 = 0x3c;
    set_bits(&mut twice, 4, 2, 2);
    set_bits(&mut twice, 4, 2, 1);
    assert_eq!(once, twice);
}

#[test]
fn accel_range_field_reads_back() {
    for (range, code) in [
        (AccelRange::G2, 0u8),
        (AccelRange::G4, 1),
        (AccelRange::G8, 2),
        (AccelRange::G16, 3),
    ] {
        assert_eq!(range.code(), code);
        let mut config: u8 = 0b1110_0101;
        set_bits(&mut config, ACCEL_CONFIG_FS_SEL_BIT, ACCEL_CONFIG_FS_SEL_LENGTH, range.code());
        assert_eq!((config >> 3) & 0b11, code);
        assert_eq!(config & 0b1110_0111, 0b1110_0101);
    }
}

#[test]
fn gyro_range_codes() {
    assert_eq!(GyroRange::D250.code(), 0);
    assert_eq!(GyroRange::D500.code(), 1);
    assert_eq!(GyroRange::D1000.code(), 2);
    assert_eq!(GyroRange::D2000.code(), 3);
}

#[test]
fn accel_hpf_codes_and_field() {
    assert_eq!(ACCEL_HPF::_RESET.code(), 0);
    assert_eq!(ACCEL_HPF::_5.code(), 1);
    assert_eq!(ACCEL_HPF::_2P5.code(), 2);
    assert_eq!(ACCEL_HPF::_1P25.code(), 3);
    assert_eq!(ACCEL_HPF::_0P63.code(), 4);
    assert_eq!(ACCEL_HPF::_HOLD.code(), 7);
    let mut config: u8 = 0b0001_1000;
    set_bits(
        &mut config,
        ACCEL_CONFIG_ACCEL_HPF_BIT,
        ACCEL_CONFIG_ACCEL_HPF_LENGTH,
        ACCEL_HPF::_HOLD.code(),
    );
    assert_eq!(config, 0b0001_1111);
}

#[test]
fn word_2c_positive() {
    assert_eq!(read_word_2c(&[0x12, 0x34]), 0x1234);
    assert_eq!(read_word_2c(&[0x7f, 0xff]), 32767);
    assert_eq!(read_word_2c(&[0x00, 0x00]), 0);
}

#[test]
fn word_2c_negative() {
    assert_eq!(read_word_2c(&[0xff, 0xfe]), -2);
    assert_eq!(read_word_2c(&[0xff, 0xff]), -1);
    assert_eq!(read_word_2c(&[0x80, 0x00]), -32768);
}

#[test]
fn word_2c_ignores_extra_bytes() {
    assert_eq!(read_word_2c(&[0x01, 0x02, 0xff]), 0x0102);
}

#[test]
fn word_2c_roundtrip_all_values() {
    for v in i16::MIN..=i16::MAX {
        let bytes = v.to_be_bytes();
        assert_eq!(read_word_2c(&bytes), v as i32);
    }
}

#[test]
fn rot_words_three_axes() {
    let buf = [0x00, 0x10, 0xff, 0xf0, 0x80, 0x01];
    assert_eq!(read_rot_words(&buf), (16, -16, -32767));
}
