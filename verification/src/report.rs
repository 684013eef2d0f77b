//! The self-contained HTML report: a summary table of the sources and, per
//! source, a card with its figures and a Leaflet map of its trail.
//!
//! Coordinates arrive already rendered as text (six decimals), so the report
//! is assembled from plain values.
use vstd::prelude::*;
use crate::number::{decimal_seq, push_decimal};
use crate::text::{chars_of, push_str, string_from_chars};
use crate::viewer::{severity_of, JumpSeverity};

verus! {

/// The style sheet of the report.
pub const REPORT_STYLE: &'static str = r#"
            body{font-family:Arial,Helvetica,sans-serif;margin:0;background:#f5f7fa;color:#222}
            header{background:#1a2a4a;color:#fff;padding:18px 32px}
            header h1{margin:0 0 4px;font-size:1.4em}
            header p{margin:0;opacity:.75;font-size:.88em}
            .wrap{max-width:1100px;margin:0 auto;padding:24px 32px}
            .summary{background:#fff;border:1px solid #d8dde4;border-radius:6px;padding:18px 22px;margin-bottom:28px}
            .summary h2{margin:0 0 12px;font-size:1em;color:#1a2a4a;text-transform:uppercase;letter-spacing:.05em}
            table{border-collapse:collapse;width:100%}
            th{text-align:left;padding:7px 10px;background:#edf1f7;font-size:.82em;color:#555;border-bottom:2px solid #c8d4e0}
            td{padding:6px 10px;border-bottom:1px solid #eef;font-size:.86em}
            tr:last-child td{border-bottom:none}
            a{color:#1a5cbf;text-decoration:none}a:hover{text-decoration:underline}
            .card{background:#fff;border:1px solid #d8dde4;border-radius:6px;margin-bottom:28px;overflow:hidden}
            .card-hd{display:flex;align-items:center;gap:14px;padding:11px 22px;background:#edf1f7;border-bottom:1px solid #d8dde4}
            .card-hd h2{margin:0;font-size:1em;color:#1a2a4a}
            .badge{padding:2px 10px;border-radius:12px;font-size:.78em;font-weight:700;color:#fff}
            .card-body{display:flex;flex-wrap:wrap}
            .stats{padding:16px 22px;min-width:260px}
            .stats table{width:auto}
            .stats th{background:none;border:none;color:#888;font-size:.8em;padding:3px 12px 3px 0;font-weight:700}
            .stats td{border:none;padding:3px 0;font-size:.86em}
            .mapbox{padding:16px 22px;flex:1;min-width:380px}
            .leaflet-container{height:360px;border-radius:6px;border:1px solid #c8d4e0}
        "#;

/// What the report shows of one source.
pub struct ReportTrack {
    pub id: String,
    /// Number of fixes (after repeated positions were removed).
    pub fixes: usize,
    /// Number of large jumps.
    pub jumps: usize,
    /// Timestamp of the first fix, if there is one.
    pub first_ts: Option<String>,
    /// Timestamp of the last fix, if there is one.
    pub last_ts: Option<String>,
    /// Latitude and longitude of the last fix (or of the origin), rendered.
    pub last_lat: String,
    pub last_lon: String,
    /// Every fix's rendered latitude and longitude, in order.
    pub coords: Vec<(String, String)>,
}

/// A timestamp, or `"-"` when there is none.
pub open spec fn ts_or_dash(ts: Option<String>) -> Seq<char> {
    match ts {
        Some(t) => t@,
        None => "-"@,
    }
}

/// The colour of a jump count in the summary table.
pub open spec fn summary_color(jumps: usize) -> Seq<char> {
    if jumps == 0 {
        "#27ae60"@
    } else if jumps <= 15 {
        "#c97d10"@
    } else {
        "#c0392b"@
    }
}

/// The summary table colours a jump count by the viewer's severity bands:
/// green exactly for a clean source, amber exactly for a moderate one (1 to 15
/// jumps) and red exactly for a severe one.
pub proof fn lemma_summary_color_follows_severity(jumps: usize)
    ensures
        (summary_color(jumps) == "#27ae60"@) <==> severity_of(jumps as int) == JumpSeverity::Clean,
        (summary_color(jumps) == "#c97d10"@) <==> severity_of(jumps as int) == JumpSeverity::Moderate,
        (summary_color(jumps) == "#c0392b"@) <==> severity_of(jumps as int) == JumpSeverity::Severe,
{
    reveal_strlit("#27ae60");
    reveal_strlit("#c97d10");
    reveal_strlit("#c0392b");
    assert("#27ae60"@ != "#c97d10"@ && "#27ae60"@ != "#c0392b"@ && "#c97d10"@ != "#c0392b"@) by {
        assert("#27ae60"@[1] != "#c97d10"@[1]);
        assert("#27ae60"@[1] != "#c0392b"@[1]);
        assert("#c97d10"@[2] != "#c0392b"@[2]);
    }
}

/// A card's badge agrees with the summary colour for no jump and for one jump,
/// and is red from two jumps on.
pub proof fn lemma_badge_color(jumps: usize)
    ensures
        jumps <= 1 ==> badge_color(jumps) == summary_color(jumps),
        jumps >= 2 ==> badge_color(jumps) == "#c0392b"@,
{
}

/// The colour and wording of a card's badge.
pub open spec fn badge_color(jumps: usize) -> Seq<char> {
    if jumps == 0 {
        "#27ae60"@
    } else if jumps == 1 {
        "#c97d10"@
    } else {
        "#c0392b"@
    }
}

pub open spec fn badge_label(jumps: usize) -> Seq<char> {
    if jumps == 0 {
        "No large jumps"@
    } else if jumps == 1 {
        "1 large jump"@
    } else {
        decimal_seq(jumps as nat) + " large jumps"@
    }
}

/// The report's head, up to the opening of its body wrapper.
pub open spec fn head_seq(id_count: usize, total: nat) -> Seq<char> {
    "<!DOCTYPE html>\n<html lang=\"en\">\n<head>\n  <meta charset=\"utf-8\">\n  <meta name=\"viewport\" content=\"width=device-width,initial-scale=1\">\n  <title>GPS Log Report</title>\n  <link rel=\"stylesheet\" href=\"https://unpkg.com/leaflet@1.9.4/dist/leaflet.css\"/>\n  <script src=\"https://unpkg.com/leaflet@1.9.4/dist/leaflet.js\"></script>\n  <style>"@
        + REPORT_STYLE@ + "</style>\n</head>\n<body>\n<header>\n  <h1>GPS Log Report</h1>\n  <p>"@
        + decimal_seq(id_count as nat) + " source ID(s)&ensp;&bull;&ensp;"@ + decimal_seq(total)
        + " total fixes (after dedup)</p>\n</header>\n<div class=\"wrap\">\n"@
}

/// The opening of the summary table.
pub open spec fn summary_head_seq() -> Seq<char> {
    "<div class=\"summary\"><h2>Summary</h2>\n<table><thead><tr>\n  <th>Source ID</th><th>Fixes</th><th>Large Jumps</th>\n  <th>First Fix</th><th>Last Fix</th><th>Last Position</th>\n</tr></thead><tbody>\n"@
}

/// One row of the summary table.
pub open spec fn summary_row_seq(t: ReportTrack) -> Seq<char> {
    "<tr><td><a href=\"#src-"@ + t.id@ + "\">"@ + t.id@ + "</a></td><td>"@ + decimal_seq(
        t.fixes as nat,
    ) + "</td><td style=\"color:"@ + summary_color(t.jumps) + ";font-weight:700\">"@
        + decimal_seq(t.jumps as nat) + "</td><td>"@ + ts_or_dash(t.first_ts) + "</td><td>"@
        + ts_or_dash(t.last_ts) + "</td><td>"@ + t.last_lat@ + ", "@ + t.last_lon@
        + "</td></tr>\n"@
}

/// The head of a source's card: its ID and its badge.
pub open spec fn card_top_seq(t: ReportTrack) -> Seq<char> {
    "<div class=\"card\" id=\"src-"@ + t.id@ + "\">\n  <div class=\"card-hd\">\n    <h2>Source ID: "@
        + t.id@ + "</h2>\n    <span class=\"badge\" style=\"background:"@ + badge_color(t.jumps)
        + "\">"@ + badge_label(t.jumps)
}

/// The figures of a source's card and the box of its map.
pub open spec fn card_stats_seq(t: ReportTrack) -> Seq<char> {
    "</span>\n  </div>\n  <div class=\"card-body\">\n    <div class=\"stats\"><table>\n      <tr><th>Total fixes</th><td>"@
        + decimal_seq(t.fixes as nat) + "</td></tr>\n      <tr><th>Large jumps</th><td>"@
        + decimal_seq(t.jumps as nat) + "</td></tr>\n      <tr><th>First fix</th><td>"@
        + ts_or_dash(t.first_ts) + "</td></tr>\n      <tr><th>Last fix</th><td>"@ + ts_or_dash(
        t.last_ts,
    ) + "</td></tr>\n      <tr><th>Last latitude</th><td>"@ + t.last_lat@
        + "</td></tr>\n      <tr><th>Last longitude</th><td>"@ + t.last_lon@
        + "</td></tr>\n    </table></div>\n    <div class=\"mapbox\"><div id=\"map-"@ + t.id@
        + "\" style=\"height:360px;border-radius:6px;border:1px solid #c8d4e0\"></div></div>\n  </div>\n</div>\n"@
}

/// One source's card.
pub open spec fn card_seq(t: ReportTrack) -> Seq<char> {
    card_top_seq(t) + card_stats_seq(t)
}

/// `[lat,lon]` pairs joined by commas.
pub open spec fn coord_list_seq(cs: Seq<(String, String)>) -> Seq<char>
    decreases cs.len(),
{
    if cs.len() == 0 {
        Seq::empty()
    } else {
        let pre = coord_list_seq(cs.drop_last());
        let item = "["@ + cs.last().0@ + ","@ + cs.last().1@ + "]"@;
        if cs.len() == 1 {
            item
        } else {
            pre + ","@ + item
        }
    }
}

/// The Leaflet script that draws one source's trail.
pub open spec fn script_seq(t: ReportTrack) -> Seq<char> {
    "(function(){\n  var m=L.map('map-"@ + t.id@ + "').setView(["@ + t.last_lat@ + ","@ + t.last_lon@
        + "],13);\n  L.tileLayer('https://{s}.basemaps.cartocdn.com/rastertiles/voyager/{z}/{x}/{y}{r}.png',{\n    attribution:'&copy; <a href=\"https://www.openstreetmap.org/copyright\">OpenStreetMap</a> contributors &copy; <a href=\"https://carto.com/attributions\">CARTO</a>',\n    subdomains:'abcd',\n    maxZoom:20\n  }).addTo(m);\n  var c=["@
        + coord_list_seq(t.coords@)
        + "];\n  if(c.length>0){\n    var pl=L.polyline(c,{color:'#1e6ee6',weight:2.5}).addTo(m);\n    for(var i=1;i<c.length-1;i++){\n      L.circleMarker(c[i],{color:'#ff8c00',fillColor:'#ff8c00',fillOpacity:1,radius:4,weight:1}).addTo(m);\n    }\n    L.circleMarker(c[0],{color:'#22cc44',fillColor:'#22cc44',fillOpacity:1,radius:6,weight:2}).addTo(m);\n    if(c.length>1)L.circleMarker(c[c.length-1],{color:'#dd3333',fillColor:'#dd3333',fillOpacity:1,radius:6,weight:2}).addTo(m);\n    m.fitBounds(pl.getBounds(),{padding:[20,20]});\n  }\n})();\n"@
}

/// The rows, cards and scripts of the sources `ts`, concatenated.
pub open spec fn rows_seq(ts: Seq<ReportTrack>) -> Seq<char>
    decreases ts.len(),
{
    if ts.len() == 0 {
        Seq::empty()
    } else {
        rows_seq(ts.drop_last()) + summary_row_seq(ts.last())
    }
}

pub open spec fn cards_seq(ts: Seq<ReportTrack>) -> Seq<char>
    decreases ts.len(),
{
    if ts.len() == 0 {
        Seq::empty()
    } else {
        cards_seq(ts.drop_last()) + card_seq(ts.last())
    }
}

pub open spec fn scripts_seq(ts: Seq<ReportTrack>) -> Seq<char>
    decreases ts.len(),
{
    if ts.len() == 0 {
        Seq::empty()
    } else {
        scripts_seq(ts.drop_last()) + script_seq(ts.last())
    }
}

/// The total number of fixes of the sources `ts`.
pub open spec fn fixes_total(ts: Seq<ReportTrack>) -> nat
    decreases ts.len(),
{
    if ts.len() == 0 {
        0
    } else {
        fixes_total(ts.drop_last()) + ts.last().fixes as nat
    }
}

/// The whole report for `id_count` requested IDs, of which `ts` are the ones
/// with fixes, in the requested order.
pub open spec fn html_report_seq(id_count: usize, ts: Seq<ReportTrack>) -> Seq<char> {
    head_seq(id_count, fixes_total(ts)) + summary_head_seq() + rows_seq(ts)
        + "</tbody></table></div>\n"@ + cards_seq(ts) + "</div>\n"@ + "<script>\n"@
        + scripts_seq(ts) + "</script>\n"@ + "</body>\n</html>"@
}

fn push_ts(out: &mut Vec<char>, ts: &Option<String>)
    ensures
        final(out)@ == old(out)@ + ts_or_dash(*ts),
{
    match ts {
        Some(t) => push_str(out, t.as_str()),
        None => push_str(out, "-"),
    }
}

#[verifier::spinoff_prover]
fn push_summary_row(out: &mut Vec<char>, t: &ReportTrack)
    ensures
        final(out)@ == old(out)@ + summary_row_seq(*t),
{
    let ghost start = out@;
    push_str(out, "<tr><td><a href=\"#src-");
    push_str(out, t.id.as_str());
    push_str(out, "\">");
    push_str(out, t.id.as_str());
    push_str(out, "</a></td><td>");
    push_decimal(out, t.fixes as u64);
    push_str(out, "</td><td style=\"color:");
    if t.jumps == 0 {
        push_str(out, "#27ae60");
    } else if t.jumps <= 15 {
        push_str(out, "#c97d10");
    } else {
        push_str(out, "#c0392b");
    }
    push_str(out, ";font-weight:700\">");
    push_decimal(out, t.jumps as u64);
    push_str(out, "</td><td>");
    push_ts(out, &t.first_ts);
    push_str(out, "</td><td>");
    push_ts(out, &t.last_ts);
    push_str(out, "</td><td>");
    push_str(out, t.last_lat.as_str());
    push_str(out, ", ");
    push_str(out, t.last_lon.as_str());
    push_str(out, "</td></tr>\n");
    assert(out@ =~= start + summary_row_seq(*t));
}

fn push_badge(out: &mut Vec<char>, jumps: usize)
    ensures
        final(out)@ == old(out)@ + badge_color(jumps) + "\">"@ + badge_label(jumps),
{
    let ghost start = out@;
    if jumps == 0 {
        push_str(out, "#27ae60");
        push_str(out, "\">");
        push_str(out, "No large jumps");
    } else if jumps == 1 {
        push_str(out, "#c97d10");
        push_str(out, "\">");
        push_str(out, "1 large jump");
    } else {
        push_str(out, "#c0392b");
        push_str(out, "\">");
        push_decimal(out, jumps as u64);
        push_str(out, " large jumps");
    }
    assert(out@ =~= start + badge_color(jumps) + "\">"@ + badge_label(jumps));
}

fn push_card_top(out: &mut Vec<char>, t: &ReportTrack)
    ensures
        final(out)@ == old(out)@ + card_top_seq(*t),
{
    let ghost start = out@;
    push_str(out, "<div class=\"card\" id=\"src-");
    push_str(out, t.id.as_str());
    push_str(out, "\">\n  <div class=\"card-hd\">\n    <h2>Source ID: ");
    push_str(out, t.id.as_str());
    push_str(out, "</h2>\n    <span class=\"badge\" style=\"background:");
    push_badge(out, t.jumps);
    assert(out@ =~= start + card_top_seq(*t));
}

fn push_card_stats(out: &mut Vec<char>, t: &ReportTrack)
    ensures
        final(out)@ == old(out)@ + card_stats_seq(*t),
{
    let ghost start = out@;
    push_str(out, "</span>\n  </div>\n  <div class=\"card-body\">\n    <div class=\"stats\"><table>\n      <tr><th>Total fixes</th><td>");
    push_decimal(out, t.fixes as u64);
    push_str(out, "</td></tr>\n      <tr><th>Large jumps</th><td>");
    push_decimal(out, t.jumps as u64);
    push_str(out, "</td></tr>\n      <tr><th>First fix</th><td>");
    push_ts(out, &t.first_ts);
    push_str(out, "</td></tr>\n      <tr><th>Last fix</th><td>");
    push_ts(out, &t.last_ts);
    push_str(out, "</td></tr>\n      <tr><th>Last latitude</th><td>");
    push_str(out, t.last_lat.as_str());
    push_str(out, "</td></tr>\n      <tr><th>Last longitude</th><td>");
    push_str(out, t.last_lon.as_str());
    push_str(out, "</td></tr>\n    </table></div>\n    <div class=\"mapbox\"><div id=\"map-");
    push_str(out, t.id.as_str());
    push_str(out, "\" style=\"height:360px;border-radius:6px;border:1px solid #c8d4e0\"></div></div>\n  </div>\n</div>\n");
    assert(out@ =~= start + card_stats_seq(*t));
}

fn push_card(out: &mut Vec<char>, t: &ReportTrack)
    ensures
        final(out)@ == old(out)@ + card_seq(*t),
{
    let ghost start = out@;
    push_card_top(out, t);
    push_card_stats(out, t);
    assert(out@ =~= start + card_seq(*t));
}

fn push_coord_list(out: &mut Vec<char>, cs: &Vec<(String, String)>)
    ensures
        final(out)@ == old(out)@ + coord_list_seq(cs@),
{
    let ghost start = out@;
    let mut i: usize = 0;
    while i < cs.len()
        invariant
            i <= cs@.len(),
            out@ == start + coord_list_seq(cs@.take(i as int)),
        decreases cs.len() - i,
    {
        let ghost before = out@;
        assert(cs@.take(i + 1).drop_last() == cs@.take(i as int));
        assert(cs@.take(i + 1).last() == cs@[i as int]);
        if i > 0 {
            push_str(out, ",");
        }
        push_str(out, "[");
        push_str(out, cs[i].0.as_str());
        push_str(out, ",");
        push_str(out, cs[i].1.as_str());
        push_str(out, "]");
        assert(out@ =~= start + coord_list_seq(cs@.take(i + 1)));
        i = i + 1;
    }
    assert(cs@.take(cs@.len() as int) == cs@);
}

fn push_script(out: &mut Vec<char>, t: &ReportTrack)
    ensures
        final(out)@ == old(out)@ + script_seq(*t),
{
    let ghost start = out@;
    push_str(out, "(function(){\n  var m=L.map('map-");
    push_str(out, t.id.as_str());
    push_str(out, "').setView([");
    push_str(out, t.last_lat.as_str());
    push_str(out, ",");
    push_str(out, t.last_lon.as_str());
    push_str(out, "],13);\n  L.tileLayer('https://{s}.basemaps.cartocdn.com/rastertiles/voyager/{z}/{x}/{y}{r}.png',{\n    attribution:'&copy; <a href=\"https://www.openstreetmap.org/copyright\">OpenStreetMap</a> contributors &copy; <a href=\"https://carto.com/attributions\">CARTO</a>',\n    subdomains:'abcd',\n    maxZoom:20\n  }).addTo(m);\n  var c=[");
    push_coord_list(out, &t.coords);
    push_str(out, "];\n  if(c.length>0){\n    var pl=L.polyline(c,{color:'#1e6ee6',weight:2.5}).addTo(m);\n    for(var i=1;i<c.length-1;i++){\n      L.circleMarker(c[i],{color:'#ff8c00',fillColor:'#ff8c00',fillOpacity:1,radius:4,weight:1}).addTo(m);\n    }\n    L.circleMarker(c[0],{color:'#22cc44',fillColor:'#22cc44',fillOpacity:1,radius:6,weight:2}).addTo(m);\n    if(c.length>1)L.circleMarker(c[c.length-1],{color:'#dd3333',fillColor:'#dd3333',fillOpacity:1,radius:6,weight:2}).addTo(m);\n    m.fitBounds(pl.getBounds(),{padding:[20,20]});\n  }\n})();\n");
    assert(out@ =~= start + script_seq(*t));
}

/// The HTML report for `id_count` requested IDs, of which `tracks` are the
/// ones with fixes, in the requested order. Requires that the total number of
/// fixes fits in a `u64`.
pub fn html_report(id_count: usize, tracks: &Vec<ReportTrack>) -> (html: String)
    requires
        fixes_total(tracks@) <= u64::MAX,
    ensures
        html@ == html_report_seq(id_count, tracks@),
{
    let mut total: u64 = 0;
    let mut i: usize = 0;
    while i < tracks.len()
        invariant
            i <= tracks@.len(),
            total as nat == fixes_total(tracks@.take(i as int)),
            fixes_total(tracks@) <= u64::MAX,
        decreases tracks.len() - i,
    {
        assert(tracks@.take(i + 1).drop_last() == tracks@.take(i as int));
        proof {
            lemma_fixes_total_prefix(tracks@, i as int + 1);
        }
        total = total + tracks[i].fixes as u64;
        i = i + 1;
    }
    assert(tracks@.take(tracks@.len() as int) == tracks@);
    let mut out: Vec<char> = Vec::new();
    push_str(&mut out, "<!DOCTYPE html>\n<html lang=\"en\">\n<head>\n  <meta charset=\"utf-8\">\n  <meta name=\"viewport\" content=\"width=device-width,initial-scale=1\">\n  <title>GPS Log Report</title>\n  <link rel=\"stylesheet\" href=\"https://unpkg.com/leaflet@1.9.4/dist/leaflet.css\"/>\n  <script src=\"https://unpkg.com/leaflet@1.9.4/dist/leaflet.js\"></script>\n  <style>");
    push_str(&mut out, REPORT_STYLE);
    push_str(&mut out, "</style>\n</head>\n<body>\n<header>\n  <h1>GPS Log Report</h1>\n  <p>");
    push_decimal(&mut out, id_count as u64);
    push_str(&mut out, " source ID(s)&ensp;&bull;&ensp;");
    push_decimal(&mut out, total);
    push_str(&mut out, " total fixes (after dedup)</p>\n</header>\n<div class=\"wrap\">\n");
    assert(out@ =~= head_seq(id_count, fixes_total(tracks@)));
    push_str(&mut out, "<div class=\"summary\"><h2>Summary</h2>\n<table><thead><tr>\n  <th>Source ID</th><th>Fixes</th><th>Large Jumps</th>\n  <th>First Fix</th><th>Last Fix</th><th>Last Position</th>\n</tr></thead><tbody>\n");
    let ghost p1 = out@;
    let mut i: usize = 0;
    while i < tracks.len()
        invariant
            i <= tracks@.len(),
            out@ == p1 + rows_seq(tracks@.take(i as int)),
        decreases tracks.len() - i,
    {
        assert(tracks@.take(i + 1).drop_last() == tracks@.take(i as int));
        push_summary_row(&mut out, &tracks[i]);
        assert(out@ =~= p1 + rows_seq(tracks@.take(i + 1)));
        i = i + 1;
    }
    push_str(&mut out, "</tbody></table></div>\n");
    let ghost p2 = out@;
    let mut i: usize = 0;
    while i < tracks.len()
        invariant
            i <= tracks@.len(),
            out@ == p2 + cards_seq(tracks@.take(i as int)),
        decreases tracks.len() - i,
    {
        assert(tracks@.take(i + 1).drop_last() == tracks@.take(i as int));
        push_card(&mut out, &tracks[i]);
        assert(out@ =~= p2 + cards_seq(tracks@.take(i + 1)));
        i = i + 1;
    }
    push_str(&mut out, "</div>\n");
    push_str(&mut out, "<script>\n");
    let ghost p3 = out@;
    let mut i: usize = 0;
    while i < tracks.len()
        invariant
            i <= tracks@.len(),
            out@ == p3 + scripts_seq(tracks@.take(i as int)),
        decreases tracks.len() - i,
    {
        assert(tracks@.take(i + 1).drop_last() == tracks@.take(i as int));
        push_script(&mut out, &tracks[i]);
        assert(out@ =~= p3 + scripts_seq(tracks@.take(i + 1)));
        i = i + 1;
    }
    push_str(&mut out, "</script>\n");
    push_str(&mut out, "</body>\n</html>");
    assert(tracks@.take(tracks@.len() as int) == tracks@);
    assert(out@ =~= html_report_seq(id_count, tracks@));
    string_from_chars(&out)
}

proof fn lemma_fixes_total_prefix(ts: Seq<ReportTrack>, j: int)
    requires
        0 <= j <= ts.len(),
    ensures
        fixes_total(ts.take(j)) <= fixes_total(ts),
    decreases ts.len(),
{
    if j < ts.len() {
        assert(ts.drop_last().take(j) == ts.take(j));
        lemma_fixes_total_prefix(ts.drop_last(), j);
    } else {
        assert(ts.take(j) == ts);
    }
}

} // verus!
