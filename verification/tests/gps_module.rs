use std::io::Read;

use nmea::sentences::FixType;
use omni_track::gps_module::{burst_ended, GPSModule, UartReadStep};
use omni_track::nmea_parser::gsa_overflows;

// https://swairlearn.bluecover.pt/nmea_analyser
const GPS_STREAM: &str = "$GPRMC,045103.000,A,3014.1984,N,09749.2872,W,0.67,161.46,030913,,,A*7C\r\n\
$GPGGA,045104.000,3014.1985,N,09749.2873,W,1,09,1.2,211.6,M,-22.5,M,,0000*62\r\n\
$GPRMC,045200.000,A,3014.3820,N,09748.9514,W,36.88,65.02,030913,,,A*77\r\n\
$GPGGA,045201.000,3014.3864,N,09748.9411,W,1,10,1.2,200.8,M,-22.5,M,,0000*6C\r\n\
$GPRMC,045251.000,A,3014.4275,N,09749.0626,W,0.51,217.94,030913,,,A*7D\r\n\
$GPGGA,045252.000,3014.4273,N,09749.0628,W,1,09,1.3,206.9,M,-22.5,M,,0000*6F\r\n";

/// One read cycle: reads until the port has nothing more to give.
fn read_cycle<R: Read>(gps: &mut GPSModule, uart: &mut R) -> std::io::Result<bool> {
    let mut changed = false;
    loop {
        let mut chunk = vec![0u8; gps.space_for_next_read()];
        let n = uart.read(&mut chunk)?;
        let step = gps.read_from_uart(&chunk[..n], changed);
        changed = step.changed;
        if step.finished {
            break;
        }
    }
    Ok(changed)
}

#[test]
fn test_gps_module() {
    let mut reader = std::io::Cursor::new(GPS_STREAM.as_bytes().to_vec());
    let mut gps_module = GPSModule::new();
    loop {
        let changed = read_cycle(&mut gps_module, &mut reader).expect("Failed to read from GPS module");
        if changed {
            let fix_type = gps_module.nmea_parser().fix_type();
            assert!(
                fix_type.is_some() && fix_type != Some(FixType::Invalid),
                "Expected a valid GPS fix"
            );
        } else {
            break;
        }
    }
    assert_eq!(reader.position(), GPS_STREAM.len() as u64);

    assert_eq!(gps_module.nmea_parser().fix_type(), Some(FixType::Gps));
    assert!(gps_module.nmea_parser().latitude().is_some());
    assert!(gps_module.nmea_parser().longitude().is_some());
}

#[test]
fn garbage_changes_nothing() {
    let mut gps = GPSModule::new();
    let step = gps.read_from_uart(b"hello\r\n$GPRMC,bad*00\r\n", false);
    assert_eq!(step, UartReadStep { changed: false, finished: false });
    assert!(gps.nmea_parser().fix_type().is_none());
    let step = gps.read_from_uart(b"", true);
    assert_eq!(step, UartReadStep { changed: true, finished: true });
}

#[test]
fn sentence_split_across_reads() {
    let mut gps = GPSModule::new();
    let (a, b) = GPS_STREAM.as_bytes().split_at(30);
    let step = gps.read_from_uart(a, false);
    assert!(!step.changed);
    let step = gps.read_from_uart(b, false);
    assert!(step.changed);
    assert_eq!(gps.nmea_parser().fix_type(), Some(FixType::Gps));
}

#[test]
fn read_step_accumulates() {
    assert_eq!(
        UartReadStep::next(false, &vec![false, true, false], 3),
        UartReadStep { changed: true, finished: false }
    );
    assert_eq!(
        UartReadStep::next(false, &vec![false, false], 0),
        UartReadStep { changed: false, finished: true }
    );
    assert_eq!(UartReadStep::next(true, &vec![], 5), UartReadStep { changed: true, finished: false });
}

fn sentence(body: &str) -> String {
    let sum = body.bytes().fold(0u8, |c, x| c ^ x);
    format!("${}*{:02X}\r\n", body, sum)
}

fn gsv(talker: &str, part: u32) -> String {
    sentence(&format!("{}GSV,{},{},16,01,40,083,46", talker, part, part))
}

#[test]
fn late_gsv_parts_are_fed_until_the_buffer_is_full() {
    let mut gps = GPSModule::new();
    // Each accepted part goes to the GPS buffer; the 16th would overflow it.
    for n in 0..20 {
        let step = gps.read_from_uart(gsv("GP", 15).as_bytes(), false);
        assert_eq!(step.changed, n < 15, "sentence {}", n);
    }
    // Another system's buffer is not affected.
    let step = gps.read_from_uart(gsv("GL", 15).as_bytes(), false);
    assert!(step.changed);
    // Low part numbers keep the buffer from filling.
    let mut gps = GPSModule::new();
    for _ in 0..40 {
        assert!(gps.read_from_uart(gsv("GP", 3).as_bytes(), false).changed);
    }
}

#[test]
fn oversized_gsa_is_held_back() {
    let fields: Vec<String> = (1..=19).map(|n| n.to_string()).collect();
    let long = format!("GPGSA,A,3,{},1.5,1.0,1.1", fields.join(","));
    assert!(gsa_overflows(sentence(&long).as_bytes()));
    let mut gps = GPSModule::new();
    let step = gps.read_from_uart(sentence(&long).as_bytes(), false);
    assert!(!step.changed);
    let short = "GPGSA,A,3,,,,,,16,18,,22,24,,,3.6,2.1,2.2";
    assert!(!gsa_overflows(sentence(short).as_bytes()));
    assert!(gps.read_from_uart(sentence(short).as_bytes(), false).changed);
    // Empty satellite fields alone are read as an empty list.
    let empty = format!("GPGSA,A,1,{}", ",".repeat(21));
    assert!(!gsa_overflows(sentence(&empty).as_bytes()));
}

#[test]
fn burst_end_publishes() {
    assert!(burst_ended(true, false));
    assert!(!burst_ended(true, true));
    assert!(!burst_ended(false, false));
    assert!(!burst_ended(false, true));
}
