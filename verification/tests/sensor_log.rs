use sensor_logger::neo6m::device::{report_line, NmeaMessage};
use sensor_logger::one_wire_bus::error::{OneWireError, OneWireResult};
use sensor_logger::sensor_log::gps_log_line;

#[test]
fn rmc_report_logged_as_rmc() {
    let m = NmeaMessage::Rmc {
        source: "GPS".to_string(),
        speed: "Some(0.5)".to_string(),
        bearing: "None".to_string(),
    };
    let report = report_line(&m).unwrap();
    assert_eq!(
        gps_log_line("2024-01-01T00:00:00Z", &report),
        format!("[2024-01-01T00:00:00Z]gps-rmc,{},1\n", report)
    );
}

#[test]
fn gga_report_logged_as_gga() {
    let report = "GPS GGA DATA  Source: GPS    Latitude: None°    Longitude: None°";
    assert_eq!(
        gps_log_line("T", report),
        "[T]gps-gga,GPS GGA DATA  Source: GPS    Latitude: None°    Longitude: None°,1\n"
    );
}

#[test]
fn parse_error_logged_as_gga() {
    assert_eq!(gps_log_line("", "GPS Parse Error"), "[]gps-gga,GPS Parse Error,1\n");
}

#[test]
fn one_wire_errors() {
    let r: OneWireResult<u8> = Err(OneWireError::PinError("pin stuck".to_string()));
    assert!(matches!(r, Err(OneWireError::PinError(ref m)) if m == "pin stuck"));
    let all = [
        OneWireError::BusNotHigh,
        OneWireError::UnexpectedResponse,
        OneWireError::FamilyCodeMismatch,
        OneWireError::CrcMismatch,
        OneWireError::Timeout,
    ];
    assert_eq!(format!("{:?}", all[0]), "BusNotHigh");
    assert_eq!(all.len(), 5);
}
