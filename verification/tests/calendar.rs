use ms_toolkit::calendar::{format_serial_timestamp, jdn_to_gregorian, SerialDateTime};

#[test]
fn jdn_of_known_dates() {
    assert_eq!(jdn_to_gregorian(2451545), (2000, 1, 1));
    assert_eq!(jdn_to_gregorian(2460019), (2023, 3, 15));
    assert_eq!(jdn_to_gregorian(2415019), (1899, 12, 30));
    assert_eq!(jdn_to_gregorian(2451604), (2000, 2, 29));
    assert_eq!(jdn_to_gregorian(0), (-4713, 11, 24));
}

#[test]
fn consecutive_days_cross_month_and_year_ends() {
    assert_eq!(jdn_to_gregorian(2451603), (2000, 2, 28));
    assert_eq!(jdn_to_gregorian(2451604), (2000, 2, 29));
    assert_eq!(jdn_to_gregorian(2451605), (2000, 3, 1));
    assert_eq!(jdn_to_gregorian(2415079), (1900, 2, 28));
    assert_eq!(jdn_to_gregorian(2415080), (1900, 3, 1));
    assert_eq!(jdn_to_gregorian(2460310), (2023, 12, 31));
    assert_eq!(jdn_to_gregorian(2460311), (2024, 1, 1));
    assert_eq!(jdn_to_gregorian(2460431), (2024, 4, 30));
    assert_eq!(jdn_to_gregorian(2460432), (2024, 5, 1));
}

#[test]
fn excel_serial_timestamps() {
    let t = SerialDateTime { whole_days: 45000, seconds: 43200 };
    assert_eq!(format_serial_timestamp(&t), "03/15/2023 12:00:00");
    let t = SerialDateTime { whole_days: 1, seconds: 3661 };
    assert_eq!(format_serial_timestamp(&t), "12/31/1899 01:01:01");
    let t = SerialDateTime { whole_days: 45000, seconds: 86400 };
    assert_eq!(format_serial_timestamp(&t), "03/16/2023 00:00:00");
    let t = SerialDateTime { whole_days: 45000, seconds: 86400 + 3661 };
    assert_eq!(format_serial_timestamp(&t), "03/16/2023 01:01:01");
    let t = SerialDateTime { whole_days: 36585, seconds: 86400 };
    assert_eq!(format_serial_timestamp(&t), "03/01/2000 00:00:00");
}

/// The same conversion the viewer applies to the event time of a spreadsheet row.
fn serial_parts(text: &str) -> Option<SerialDateTime> {
    let serial: f64 = text.parse().ok()?;
    let whole_days = serial as i64;
    let frac = serial - whole_days as f64;
    let seconds = (frac * 86400.0).round() as u64;
    Some(SerialDateTime { whole_days, seconds })
}

#[test]
fn fractional_serial_gives_time_of_day() {
    let t = serial_parts("45000.75").unwrap();
    assert_eq!(format_serial_timestamp(&t), "03/15/2023 18:00:00");
    let t = serial_parts("45000.9999999").unwrap();
    assert_eq!(format_serial_timestamp(&t), "03/16/2023 00:00:00");
    let t = serial_parts("44927.5").unwrap();
    assert_eq!(format_serial_timestamp(&t), "01/01/2023 12:00:00");
}

/// The standard Gregorian-date-to-JDN formula (floor division).
fn gregorian_to_jdn(year: i64, month: i64, day: i64) -> i64 {
    let a = (14 - month).div_euclid(12);
    let y = year + 4800 - a;
    let m = month + 12 * a - 3;
    day + (153 * m + 2).div_euclid(5) + 365 * y + y.div_euclid(4) - y.div_euclid(100) + y.div_euclid(400) - 32045
}

#[test]
fn dates_map_back_to_their_day_numbers() {
    let mut jdn: i64 = -32044;
    while jdn < 3_000_000 {
        let (y, m, d) = jdn_to_gregorian(jdn);
        assert!((1..=12).contains(&m) && (1..=31).contains(&d), "jdn {jdn}");
        assert_eq!(gregorian_to_jdn(y as i64, m as i64, d as i64), jdn, "jdn {jdn}");
        jdn += 997;
    }
    // consecutive days across a leap day
    assert_eq!(jdn_to_gregorian(2460004), (2023, 2, 28));
    assert_eq!(jdn_to_gregorian(2460005), (2023, 3, 1));
}
