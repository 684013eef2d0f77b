use ms_toolkit::number::{is_float_text, parse_u32, parse_u64};
use ms_toolkit::viewer::load_status;
use ms_toolkit::text::{chars_of, eq_ignore_ascii_case, lines_of, split_chars, trim_both_char, trim_end_char};

fn s(v: &[char]) -> String {
    v.iter().collect()
}

#[test]
fn lines_match_std_lines() {
    let samples = [
        "",
        "a",
        "a\n",
        "a\nb",
        "a\r\nb\r\n",
        "a\r\n\r\nb",
        "\n\n",
        "x\ry\rz",
        "end with cr\r",
        "mixed\r\nlines\nhere\r\n\n",
    ];
    for text in samples.iter() {
        let got: Vec<String> = lines_of(&chars_of(text)).iter().map(|l| s(l)).collect();
        let want: Vec<String> = text.lines().map(|l| l.to_string()).collect();
        assert_eq!(got, want, "lines of {:?}", text);
    }
}

#[test]
fn split_matches_std_split() {
    let samples = ["", ";", "a;b", "C;Y1;X2;K\"x\"", ";;a;;", "no separator"];
    for text in samples.iter() {
        let got: Vec<String> = split_chars(&chars_of(text), ';').iter().map(|p| s(p)).collect();
        let want: Vec<String> = text.split(';').map(|p| p.to_string()).collect();
        assert_eq!(got, want, "split of {:?}", text);
    }
}

#[test]
fn trimming_matches_std() {
    let samples = ["\"quoted\"", "\"\"\"", "\"a\"b\"", "plain", "", "x\r\r"];
    for text in samples.iter() {
        assert_eq!(s(&trim_both_char(&chars_of(text), '"')), text.trim_matches('"'));
        assert_eq!(s(&trim_end_char(&chars_of(text), '\r')), text.trim_end_matches('\r'));
    }
}

#[test]
fn ascii_case_comparison_matches_std() {
    let pairs = [("Lat", "lat"), ("LAT", "Lat"), ("Lon", "Lat"), ("VehicleName", "vehiclename"), ("É", "é"), ("", "")];
    for (a, b) in pairs.iter() {
        assert_eq!(eq_ignore_ascii_case(&chars_of(a), &chars_of(b)), a.eq_ignore_ascii_case(b));
    }
}

#[test]
fn unsigned_parsing_matches_std() {
    let samples = [
        "", "+", "-", "0", "+5", "-5", "42", "007", " 1", "1 ", "1a", "4294967295", "4294967296",
        "18446744073709551615", "18446744073709551616", "99999999999999999999999", "++1", "٣",
    ];
    for text in samples.iter() {
        assert_eq!(parse_u32(&chars_of(text)), text.parse::<u32>().ok(), "u32 {:?}", text);
        assert_eq!(parse_u64(&chars_of(text)), text.parse::<u64>().ok(), "u64 {:?}", text);
    }
}

#[test]
fn float_literal_syntax_matches_std() {
    let samples = [
        "", "0", "1.", ".5", ".", "-.", "+1.5", "-29.123456", "1e5", "1E-5", "1e", "e5", "1.5e+3",
        "inf", "-INF", "Infinity", "+infinity", "nan", "NaN", "-nan", "infin", "1_000", " 1", "1 ",
        "1.2.3", "--1", "0x10", "12a", "45000.5", "-", "+", "1e+", "1.e3", ".e3",
    ];
    for text in samples.iter() {
        assert_eq!(is_float_text(&chars_of(text)), text.parse::<f64>().is_ok(), "float {:?}", text);
    }
}

#[test]
fn decimal_rendering() {
    for (a, b, c) in [(0usize, 7usize, 1234567890usize), (usize::MAX, 10, 9), (42, 100, 100)] {
        let want = format!(
            "{} source IDs  |  {} fixes  |  {} duplicate positions removed  |  p",
            a,
            b,
            c.saturating_sub(b)
        );
        assert_eq!(load_status(a, b, c, "p"), want);
    }
}

#[test]
fn chars_of_keeps_every_char() {
    let text = "sourceId: (12) – ü";
    assert_eq!(chars_of(text), text.chars().collect::<Vec<char>>());
}
