use sensor_logger::neo6m::device::{
    gps_data_is_readable, gps_report, report_line, NmeaMessage, NEO6M,
};
use sensor_logger::neo6m::safety::parses_safely;
use sensor_logger::neo6m::framing::split_sentences;

#[test]
fn split_keeps_non_empty_lines_in_order() {
    let data = b"\n$A,1\n\n$B,2\r\nlast";
    let parts = split_sentences(data);
    assert_eq!(parts, vec![b"$A,1".to_vec(), b"$B,2\r".to_vec(), b"last".to_vec()]);
}

#[test]
fn split_empty_and_newlines_only() {
    assert!(split_sentences(b"").is_empty());
    assert!(split_sentences(b"\n\n\n").is_empty());
}

#[test]
fn split_concat_at_newline() {
    let a = b"$X,1\nab";
    let b = b"cd\n\n$Y";
    let mut joined = a.to_vec();
    joined.push(b'\n');
    joined.extend_from_slice(b);
    let mut expected = split_sentences(a);
    expected.extend(split_sentences(b));
    assert_eq!(split_sentences(&joined), expected);
}

fn s(x: &str) -> String {
    x.to_string()
}

#[test]
fn report_line_gga() {
    let m = NmeaMessage::Gga { source: s("GPS"), latitude: s("Some(1.5)"), longitude: s("None") };
    assert_eq!(
        report_line(&m),
        Some(s("GPS GGA DATA  Source: GPS    Latitude: Some(1.5)°    Longitude: None°"))
    );
}

#[test]
fn report_line_rmc() {
    let m = NmeaMessage::Rmc { source: s("GLONASS"), speed: s("Some(0.5)"), bearing: s("Some(54.7)") };
    assert_eq!(
        report_line(&m),
        Some(s("GPS RMC DATA  Source: GLONASS    Speed: Some(0.5) kts    Bearing: Some(54.7)°"))
    );
}

#[test]
fn report_line_other_and_error() {
    assert_eq!(report_line(&NmeaMessage::Other), None);
    assert_eq!(report_line(&NmeaMessage::ParseFailed), Some(s("GPS Parse Error")));
}

#[test]
fn report_skips_other_messages() {
    let msgs = vec![
        NmeaMessage::Other,
        NmeaMessage::ParseFailed,
        NmeaMessage::Other,
        NmeaMessage::Gga { source: s("GPS"), latitude: s("None"), longitude: s("None") },
    ];
    assert_eq!(
        gps_report(&msgs),
        vec![
            s("GPS Parse Error"),
            s("GPS GGA DATA  Source: GPS    Latitude: None°    Longitude: None°"),
        ]
    );
}

#[test]
fn read_gps_data_parses_each_sentence() {
    let mut gps = NEO6M::new();
    let data = b"$GPGGA,123519,,,,,,,,,,,,,*5B\r\n\
$GPRMC,225446,A,4916.45,N,12311.12,W,000.5,054.7,191120,020.3,E*67\r\n\
$GPRMC,225446,A,,,,,,,070809,,*23\r\n";
    assert_eq!(
        gps.read_gps_data(data),
        vec![
            s("GPS GGA DATA  Source: GPS    Latitude: None°    Longitude: None°"),
            s("GPS RMC DATA  Source: GPS    Speed: Some(0.5) kts    Bearing: Some(54.7)°"),
            s("GPS RMC DATA  Source: GPS    Speed: None kts    Bearing: None°"),
        ]
    );
}

#[test]
fn read_gps_data_reports_refused_sentences() {
    let mut gps = NEO6M::new();
    let data = b"no start here\n$GPRMC,225446,A,,,,,,,070809,,*00\n";
    assert_eq!(
        gps.read_gps_data(data),
        vec![s("GPS Parse Error"), s("GPS Parse Error")]
    );
}

#[test]
fn read_gps_data_skips_unreported_types() {
    let mut gps = NEO6M::new();
    let data = b"$GPVTG,054.7,T,034.4,M,005.5,N,010.2,K*48\n";
    assert_eq!(gps.read_gps_data(data), Vec::<String>::new());
}

#[test]
fn read_gps_data_empty_input() {
    let mut gps = NEO6M::new();
    assert!(gps.read_gps_data(b"\n\n").is_empty());
}

#[test]
fn readable_check() {
    assert!(gps_data_is_readable(b"$GP\n$GPGGA,123519,,,*5B\n"));
    assert!(!gps_data_is_readable(b"$GP\n\xff\xfe\n"));
    assert!(!gps_data_is_readable(b"$GPGGA,1*\xe2\x82\xacx\n"));
    assert!(!gps_data_is_readable(b"!AIVDM,1,1,,A,#,0*00\n"));
    assert!(!gps_data_is_readable(b"$GPGSV,4294967295,1\n"));
    assert!(gps_data_is_readable(b"!AIVDM,1,1,,A,15RTgt0PAso;90TKcjM8h6g208CQ,0*4A\n"));
    assert!(gps_data_is_readable(b"$GPVTG,500000,T,,M,,N,,K*00\n$GPGGA,\xc3\xa9,,*00\n"));
    assert!(gps_data_is_readable(b""));
    assert!(gps_data_is_readable(b"\n\n"));
}

#[test]
fn parse_safety_checksum_cut() {
    assert!(!parses_safely(b"$GPGGA,1*\xe2\x82\xacx\n"));
    assert!(!parses_safely(b"$GPGGA,1*4\xc3\xa9\n"));
    assert!(parses_safely(b"$GPGGA,\xc3\xa9*47\n"));
    assert!(parses_safely(b"$GPGGA,1*\xc3\xa9\n"));
    assert!(parses_safely(b"*\xe2\x82\xac$GPGGA\n"));
}

#[test]
fn parse_safety_gsv_count() {
    assert!(!parses_safely(b"$GPGSV,4294967295,1\n"));
    assert!(!parses_safely(b"$GPGSV,+4294967295,1*00\n"));
    assert!(!parses_safely(b"$GSV,0004294967295,\n"));
    assert!(parses_safely(b"$GPGSV,4294967294,1\n"));
    assert!(parses_safely(b"$GSV,4294967295\n"));
    assert!(parses_safely(b"$GPGGA,4294967295,1\n"));
    assert!(parses_safely(b"$GPGSV,3,1,11,03,03,111,00*74\n"));
}

#[test]
fn parse_safety_zda_offset() {
    assert!(parses_safely(b"$GPZDA,072914.00,31,05,2018,-03,00\n"));
    assert!(!parses_safely(b"$GPZDA,0,1,1,2018,596524,0*00\n"));
    assert!(parses_safely(b"$GPZDA,0,1,1,2018,596524\n"));
    assert!(!parses_safely(b"$GPZDA,0,1,1,2018,596524*00\n"));
    assert!(parses_safely(b"$GPZDA,0,1,1,2018,596524,,\n"));
    assert!(parses_safely(b"$GPZDA,0,1,1,2018,596523,14,\n"));
    assert!(!parses_safely(b"$GPZDA,0,1,1,2018,596523,15,\n"));
    assert!(!parses_safely(b"$GPZDA,0,1,1,2018,-1,-2147483648,\n"));
    assert!(parses_safely(b"$GPZDA,0,1,1,2018,0,-2147483648,\n"));
    assert!(parses_safely(b"$GPZDA,0,1,1,2018,9999999999,0,\n"));
    assert!(parses_safely(b"500000"));
}

#[test]
fn parse_safety_ais_payload() {
    assert!(!parses_safely(b"!AIVDM,1,1,,A,#,0*00\n"));
    assert!(!parses_safely(b"!AIVDO,1,1,,A,1 2,0\n"));
    assert!(!parses_safely(b"!AIVDM,1,1,,A,I00000,0*00\n"));
    assert!(!parses_safely(b"!AIVDM,1,1,,A,J,0\n"));
    assert!(parses_safely(b"!AIVDM,1,1,,A,15RTgt0PAso;90TKcjM8h6g208CQ,0*4A\n"));
    assert!(parses_safely(b"!AIVDM,1,1,,A,,0\n"));
    assert!(parses_safely(b"!AIXYZ,1,1,,A,#,0\n"));
    assert!(parses_safely(b""));
}

#[test]
fn read_gps_data_handles_unusual_input() {
    let mut gps = NEO6M::new();
    let data = b"!AIVDM,1,1,,A,15RTgt0PAso;90TKcjM8h6g208CQ,0*4A\n\
$GPVTG,500000,T,,M,,N,,K\n\
$GPGGA,\xc3\xa9,,*00\n";
    assert!(gps_data_is_readable(data));
    let lines = gps.read_gps_data(data);
    assert!(lines.len() <= 3);
    assert!(lines.iter().all(|l| !l.contains("kts")));
}

#[test]
fn read_gps_data_multi_sentence_gsv_reports_nothing() {
    let mut gps = NEO6M::new();
    let data = b"$GPGSV,3,1,11,03,03,111,00,04,15,270,00,06,01,010,00,13,06,292,00*74\n\
$GPGSV,3,2,11,14,25,170,00,16,57,208,39,18,67,296,40,19,40,246,00*74\n\
$GPGSV,3,3,11,22,42,067,42,24,14,311,43,27,05,244,00,,,,*4D\n";
    assert!(gps.read_gps_data(data).is_empty());
}

#[test]
fn read_gps_data_blank_lines_ignored() {
    let data1 = b"$GPRMC,225446,A,,,,,,,070809,,*23\n$GPGGA,123519,,,,,,,,,,,,,*5B\n";
    let data2 = b"\n\n$GPRMC,225446,A,,,,,,,070809,,*23\n\n\n$GPGGA,123519,,,,,,,,,,,,,*5B\n\n";
    let mut a = NEO6M::new();
    let mut b = NEO6M::new();
    assert_eq!(a.read_gps_data(data1), b.read_gps_data(data2));
}
