use ms_toolkit::calendar::SerialDateTime;
use ms_toolkit::logline::{parse_log, LogLineMatcher};
use ms_toolkit::sylk::{data_rows, find_column, parse_slk, scan_sylk, slk_columns};
use ms_toolkit::text::chars_of;
use ms_toolkit::track::{count_large_jumps, dedup_consecutive, GpsRecord, SourceTrack};

fn coord(text: &str) -> f64 {
    text.parse().unwrap_or(0.0)
}

/// The viewer's test for a fix that has moved: either coordinate differs from
/// the last kept fix by more than 1e-5 degrees.
fn moved(r: &GpsRecord, prev: &GpsRecord) -> bool {
    const EPS: f64 = 1e-5;
    (coord(&r.lat) - coord(&prev.lat)).abs() > EPS || (coord(&r.lon) - coord(&prev.lon)).abs() > EPS
}

fn serial_parts(text: &str) -> Option<SerialDateTime> {
    let serial: f64 = text.parse().ok()?;
    let whole_days = serial as i64;
    let frac = serial - whole_days as f64;
    let seconds = (frac * 86400.0).round() as u64;
    Some(SerialDateTime { whole_days, seconds })
}

fn rec(ts: &str, id: &str, lat: &str, lon: &str) -> GpsRecord {
    GpsRecord { timestamp: ts.to_string(), source_id: id.to_string(), lat: lat.to_string(), lon: lon.to_string() }
}

fn track<'a>(tracks: &'a [SourceTrack], id: &str) -> &'a SourceTrack {
    tracks.iter().find(|t| t.source_id == id).expect("track present")
}

fn line(ts: &str, id: &str, lat: &str, lon: &str) -> String {
    format!("{ts} [worker-3] INFO rxLocationReport targetId: () sourceId: ({id}) latitude: ({lat}) longitude: ({lon})")
}

#[test]
fn log_line_fields_are_extracted() {
    let m = LogLineMatcher::new();
    let l = line("04/10/26 08:15:30.123", "1042", "29.651234", "-82.324567");
    let r = m.match_line(&l).expect("a location report");
    assert_eq!(r.timestamp, "04/10/26 08:15:30.123");
    assert_eq!(r.source_id, "1042");
    assert_eq!(r.lat, "29.651234");
    assert_eq!(r.lon, "-82.324567");
    assert!(m.match_line("04/10/26 08:15:30.123 heartbeat").is_none());
    assert!(m.match_line("rxLocationReport targetId: () sourceId: (1) latitude: (1) longitude: (2)").is_none());
}

#[test]
fn log_is_grouped_by_source_and_deduplicated() {
    let content = [
        line("04/10/26 08:00:00.000", "7", "29.650000", "-82.320000"),
        "unrelated line".to_string(),
        line("04/10/26 08:00:05.000", "7", "29.650001", "-82.320001"),
        line("04/10/26 08:00:06.000", "12", "30.000000", "-81.000000"),
        line("04/10/26 08:00:10.000", "7", "29.660000", "-82.320000"),
        line("04/10/26 08:00:15.000", "7", "29.660000", "-82.320000"),
        line("04/10/26 08:00:20.000", "12", "30.100000", "-81.000000"),
    ]
    .join("\r\n");
    let (tracks, stats) = parse_log(&content, &moved);
    assert_eq!(stats.raw_fixes, 6);
    assert_eq!(stats.after_dedup, 4);
    assert_eq!(tracks.len(), 2);
    assert_eq!(tracks[0].source_id, "7");
    assert_eq!(tracks[1].source_id, "12");
    let t7 = track(&tracks, "7");
    let ts: Vec<&str> = t7.records.iter().map(|r| r.timestamp.as_str()).collect();
    assert_eq!(ts, vec!["04/10/26 08:00:00.000", "04/10/26 08:00:10.000"]);
    let t12 = track(&tracks, "12");
    assert_eq!(t12.records.len(), 2);
    for t in &tracks {
        assert!(!t.records.is_empty());
        assert!(t.records.iter().all(|r| r.source_id == t.source_id));
    }
    assert!(stats.after_dedup <= stats.raw_fixes);
}

#[test]
fn unparsable_log_coordinates_count_as_zero() {
    let content = [
        line("04/10/26 08:00:00.000", "5", "1.2.3", "0"),
        line("04/10/26 08:00:01.000", "5", "0", "0"),
    ]
    .join("\n");
    let (tracks, stats) = parse_log(&content, &moved);
    assert_eq!(stats.raw_fixes, 2);
    assert_eq!(stats.after_dedup, 1);
    assert_eq!(tracks[0].records[0].lat, "1.2.3");
}

#[test]
fn empty_log_gives_nothing() {
    let (tracks, stats) = parse_log("", &moved);
    assert!(tracks.is_empty());
    assert_eq!(stats.raw_fixes, 0);
    assert_eq!(stats.after_dedup, 0);
}

#[test]
fn dedup_keeps_first_and_moved_fixes() {
    let mut v = vec![
        rec("a", "1", "10.0", "20.0"),
        rec("b", "1", "10.000001", "20.0"),
        rec("c", "1", "10.00002", "20.0"),
        rec("d", "1", "10.00002", "20.000001"),
        rec("e", "1", "10.0", "20.0"),
    ];
    dedup_consecutive(&mut v, &moved);
    let ts: Vec<&str> = v.iter().map(|r| r.timestamp.as_str()).collect();
    assert_eq!(ts, vec!["a", "c", "e"]);
    // every kept fix moved away from the one before it
    assert!(v.windows(2).all(|w| moved(&w[1], &w[0])));
    // a second pass changes nothing
    dedup_consecutive(&mut v, &moved);
    assert_eq!(v.len(), 3);
    let mut empty: Vec<GpsRecord> = Vec::new();
    dedup_consecutive(&mut empty, &moved);
    assert!(empty.is_empty());
}

#[test]
fn dedup_compares_with_last_kept_fix() {
    // drift of 0.000006 per step: each step is small, but the third fix is
    // 0.000012 from the first kept one and is kept
    let mut v = vec![
        rec("a", "1", "0.000000", "0"),
        rec("b", "1", "0.000006", "0"),
        rec("c", "1", "0.000012", "0"),
    ];
    dedup_consecutive(&mut v, &moved);
    let ts: Vec<&str> = v.iter().map(|r| r.timestamp.as_str()).collect();
    assert_eq!(ts, vec!["a", "c"]);
}

#[test]
fn large_jumps_are_counted_pairwise() {
    let v = vec![
        rec("a", "1", "0.0", "0.0"),
        rec("b", "1", "0.04", "0.04"),
        rec("c", "1", "0.04", "0.04"),
        rec("d", "1", "1.0", "1.0"),
    ];
    let jump = |a: &GpsRecord, b: &GpsRecord| {
        let dlat = coord(&b.lat) - coord(&a.lat);
        let dlon = coord(&b.lon) - coord(&a.lon);
        (dlat * dlat + dlon * dlon).sqrt() > 0.05
    };
    assert_eq!(count_large_jumps(&v, &jump), 2);
    assert_eq!(count_large_jumps(&v[..1], &jump), 0);
    let none: Vec<GpsRecord> = Vec::new();
    assert_eq!(count_large_jumps(&none, &jump), 0);
}

fn slk_doc() -> String {
    [
        "ID;PWXL;N;E",
        "C;Y1;X1;K\"Id\"",
        "F;Y1;X1",
        "C;K\"Unit\"",
        "F;X2",
        "C;K\"vehiclename\"",
        "F;X3",
        "C;K\"EventTime\"",
        "F;X4",
        "C;K\"LAT\"",
        "F;X5",
        "C;K\"Lon\"",
        "F;Y3;X2",
        "C;K\"Truck 9\"",
        "F;X3",
        "C;K45000.5",
        "F;X4",
        "C;K29.5",
        "F;X5",
        "C;K-82.25",
        "F;Y2;X2",
        "C;K\"Truck 9\"",
        "F;X3",
        "C;K45000.25",
        "F;X4",
        "C;K29.5",
        "F;X5",
        "C;K-82.25",
        "F;Y4;X2",
        "C;K\"Truck 9\"",
        "F;X3",
        "C;K\"not a date\"",
        "F;X4",
        "C;K30",
        "F;X5",
        "C;K-82",
        "F;Y5;X2",
        "C;K\"Van 1\"",
        "F;X3",
        "C;K45001",
        "F;X4",
        "C;Knorth",
        "F;X5",
        "C;K-80",
        "F;Y6;X2",
        "C;K\"\"",
        "F;X3",
        "C;K45001",
        "E",
    ]
    .join("\r\n")
}

#[test]
fn sylk_grid_and_header_columns() {
    let doc = slk_doc();
    let grid = scan_sylk(&doc);
    let at = |r: u32, c: u32| grid.get(r, c).map(|v| v.iter().collect::<String>());
    assert_eq!(at(1, 2).as_deref(), Some("vehiclename"));
    assert_eq!(at(3, 3).as_deref(), Some("45000.5"));
    assert_eq!(at(6, 2).as_deref(), Some(""));
    assert_eq!(at(9, 9), None);
    let cols = slk_columns(&grid);
    assert_eq!((cols.vehicle, cols.time, cols.lat, cols.lon), (2, 3, 4, 5));
    assert_eq!(find_column(&grid, &chars_of("Missing"), 42), 42);
    assert_eq!(data_rows(&grid), vec![2, 3, 4, 5, 6]);
}

#[test]
fn sylk_rows_become_fixes() {
    let (tracks, stats) = parse_slk(&slk_doc(), &serial_parts, &moved);
    // rows 2, 3, 4 are fixes of Truck 9; row 5 has a bad latitude; row 6 has no vehicle
    assert_eq!(stats.raw_fixes, 3);
    assert_eq!(tracks.len(), 1);
    let t = &tracks[0];
    assert_eq!(t.source_id, "Truck 9");
    // rows 2 and 3 share a position, so row 3 is dropped
    assert_eq!(stats.after_dedup, 2);
    assert_eq!(t.records[0].timestamp, "03/15/2023 06:00:00");
    assert_eq!(t.records[1].timestamp, "not a date");
    assert_eq!(t.records[1].lat, "30");
}

#[test]
fn sylk_without_headers_uses_default_columns() {
    let doc = [
        "F;Y2;X5", "C;K\"Bus\"", "F;X6", "C;K45000", "F;X10", "C;K1.5", "F;X11", "C;K2.5",
    ]
    .join("\n");
    let (tracks, stats) = parse_slk(&doc, &serial_parts, &moved);
    assert_eq!(stats.raw_fixes, 1);
    assert_eq!(tracks[0].source_id, "Bus");
    assert_eq!(tracks[0].records[0].timestamp, "03/15/2023 00:00:00");
    assert_eq!(tracks[0].records[0].lon, "2.5");
}
