use ms_toolkit::viewer::{
    click_selection, filter_ids, is_slk_path, jump_label, jump_severity, load_status, pdf_jump_label,
    pdf_summary_line, selected_ids_sorted, shown_line, sort_source_ids, JumpSeverity,
};

fn strings(v: &[&str]) -> Vec<String> {
    v.iter().map(|s| s.to_string()).collect()
}

#[test]
fn jump_severity_bands() {
    assert_eq!(jump_severity(0), JumpSeverity::Clean);
    assert_eq!(jump_severity(1), JumpSeverity::Moderate);
    assert_eq!(jump_severity(15), JumpSeverity::Moderate);
    assert_eq!(jump_severity(16), JumpSeverity::Severe);
}

#[test]
fn jump_wording() {
    assert_eq!(jump_label(0), "No large jumps");
    assert_eq!(jump_label(1), "1 large jump");
    assert_eq!(jump_label(23), "23 large jumps");
    assert_eq!(pdf_jump_label(0), "No large jumps");
    assert_eq!(pdf_jump_label(1), "1 large jump(s)");
    assert_eq!(pdf_jump_label(15), "15 large jump(s)");
    assert_eq!(pdf_jump_label(16), "16 large jumps");
}

#[test]
fn ids_sort_numerically_with_others_last() {
    let ids = strings(&["100", "abc", "7", "+3", "007", "x", "18446744073709551616"]);
    let sorted = sort_source_ids(ids.clone());
    let mut expected = ids.clone();
    expected.sort_by_key(|s| s.parse::<u64>().unwrap_or(u64::MAX));
    assert_eq!(sorted, expected);
    assert_eq!(sorted, strings(&["+3", "7", "007", "100", "abc", "x", "18446744073709551616"]));
}

#[test]
fn id_filter() {
    let ids = strings(&["1042", "Truck 9", "TRUCK 12", "van"]);
    assert_eq!(filter_ids(&ids, "  truck "), strings(&["Truck 9", "TRUCK 12"]));
    assert_eq!(filter_ids(&ids, ""), ids);
    assert_eq!(filter_ids(&ids, "   "), ids);
    assert_eq!(filter_ids(&ids, "04"), strings(&["1042"]));
    assert_eq!(filter_ids(&ids, "zzz"), Vec::<String>::new());
}

#[test]
fn selection_follows_clicks() {
    let sel = click_selection(Vec::new(), "7".to_string(), false);
    assert_eq!(sel, strings(&["7"]));
    let sel = click_selection(sel, "9".to_string(), true);
    assert_eq!(sel, strings(&["7", "9"]));
    let sel = click_selection(sel, "7".to_string(), true);
    assert_eq!(sel, strings(&["9"]));
    let sel = click_selection(sel, "3".to_string(), false);
    assert_eq!(sel, strings(&["3"]));
    let sorted = strings(&["3", "7", "9"]);
    assert_eq!(selected_ids_sorted(&sorted, &strings(&["9", "3"])), strings(&["3", "9"]));
}

#[test]
fn status_line() {
    assert_eq!(
        load_status(2, 4, 6, "/tmp/a.log"),
        "2 source IDs  |  4 fixes  |  2 duplicate positions removed  |  /tmp/a.log"
    );
    assert_eq!(
        load_status(0, 5, 3, "x"),
        "0 source IDs  |  5 fixes  |  0 duplicate positions removed  |  x"
    );
}

#[test]
fn pdf_summary_wording() {
    assert_eq!(pdf_summary_line(3, 120), "3 source IDs  |  120 total fixes (after dedup)");
    assert_eq!(pdf_summary_line(0, 0), "0 source IDs  |  0 total fixes (after dedup)");
}

#[test]
fn shown_line_with_and_without_selection() {
    assert_eq!(shown_line(2, 10, 0), "2 / 10 shown");
    assert_eq!(shown_line(2, 10, 3), "2 / 10 shown  \u{b7}  3 selected");
    assert_eq!(shown_line(10, 10, 1), "10 / 10 shown  ·  1 selected");
}

#[test]
fn slk_files_by_extension() {
    assert!(is_slk_path("C:\\data\\export.SLK"));
    assert!(is_slk_path("/tmp/a.slk"));
    assert!(!is_slk_path("/tmp/a.log"));
    assert!(!is_slk_path("slk"));
    assert!(is_slk_path("x.sl\u{212A}"));
}

/// The sidebar filter as the viewer's update loop writes it.
fn reference_filter(ids: &[String], search: &str) -> Vec<String> {
    let q = search.trim().to_ascii_lowercase();
    ids.iter().filter(|id| q.is_empty() || id.to_ascii_lowercase().contains(&q)).cloned().collect()
}

#[test]
fn id_filter_matches_reference_on_unicode_space() {
    let ids = strings(&["Alpha 1", "beta\u{3000}2", "GAMMA", "ünï", "x\u{2028}y"]);
    for code in (0u32..0x3100).chain([0x202f, 0x205f, 0xfeff, 0x180e, 0x200b].into_iter()) {
        if let Some(c) = char::from_u32(code) {
            for query in [c.to_string(), format!("{c}a{c}"), format!(" {c}"), format!("{c}1")] {
                assert_eq!(filter_ids(&ids, &query), reference_filter(&ids, &query), "query {:?}", query);
            }
        }
    }
}
