use std::collections::HashMap;

use ms_toolkit::report::{html_report, ReportTrack};

#[derive(Clone)]
struct Fix {
    timestamp: String,
    lat: f64,
    lon: f64,
}

/// The report as the viewer's template renders it, kept here as the reference.
fn reference_report(ids: Vec<String>, records: &HashMap<String, Vec<Fix>>, jump_counts: &HashMap<String, usize>) -> String {
        let total_fixes: usize = ids
            .iter()
            .filter_map(|id| records.get(id))
            .map(|v| v.len())
            .sum();

        let style = r#"
            body{font-family:Arial,Helvetica,sans-serif;margin:0;background:#f5f7fa;color:#222}
            header{background:#1a2a4a;color:#fff;padding:18px 32px}
            header h1{margin:0 0 4px;font-size:1.4em}
            header p{margin:0;opacity:.75;font-size:.88em}
            .wrap{max-width:1100px;margin:0 auto;padding:24px 32px}
            .summary{background:#fff;border:1px solid #d8dde4;border-radius:6px;padding:18px 22px;margin-bottom:28px}
            .summary h2{margin:0 0 12px;font-size:1em;color:#1a2a4a;text-transform:uppercase;letter-spacing:.05em}
            table{border-collapse:collapse;width:100%}
            th{text-align:left;padding:7px 10px;background:#edf1f7;font-size:.82em;color:#555;border-bottom:2px solid #c8d4e0}
            td{padding:6px 10px;border-bottom:1px solid #eef;font-size:.86em}
            tr:last-child td{border-bottom:none}
            a{color:#1a5cbf;text-decoration:none}a:hover{text-decoration:underline}
            .card{background:#fff;border:1px solid #d8dde4;border-radius:6px;margin-bottom:28px;overflow:hidden}
            .card-hd{display:flex;align-items:center;gap:14px;padding:11px 22px;background:#edf1f7;border-bottom:1px solid #d8dde4}
            .card-hd h2{margin:0;font-size:1em;color:#1a2a4a}
            .badge{padding:2px 10px;border-radius:12px;font-size:.78em;font-weight:700;color:#fff}
            .card-body{display:flex;flex-wrap:wrap}
            .stats{padding:16px 22px;min-width:260px}
            .stats table{width:auto}
            .stats th{background:none;border:none;color:#888;font-size:.8em;padding:3px 12px 3px 0;font-weight:700}
            .stats td{border:none;padding:3px 0;font-size:.86em}
            .mapbox{padding:16px 22px;flex:1;min-width:380px}
            .leaflet-container{height:360px;border-radius:6px;border:1px solid #c8d4e0}
        "#;

        let mut html = format!(
            r#"<!DOCTYPE html>
<html lang="en">
<head>
  <meta charset="utf-8">
  <meta name="viewport" content="width=device-width,initial-scale=1">
  <title>GPS Log Report</title>
  <link rel="stylesheet" href="https://unpkg.com/leaflet@1.9.4/dist/leaflet.css"/>
  <script src="https://unpkg.com/leaflet@1.9.4/dist/leaflet.js"></script>
  <style>{style}</style>
</head>
<body>
<header>
  <h1>GPS Log Report</h1>
  <p>{id_count} source ID(s)&ensp;&bull;&ensp;{total_fixes} total fixes (after dedup)</p>
</header>
<div class="wrap">
"#,
            id_count = ids.len(),
        );

        // ── Summary table ─────────────────────────────────────────────────────
        html.push_str(
            r#"<div class="summary"><h2>Summary</h2>
<table><thead><tr>
  <th>Source ID</th><th>Fixes</th><th>Large Jumps</th>
  <th>First Fix</th><th>Last Fix</th><th>Last Position</th>
</tr></thead><tbody>
"#,
        );
        for id in &ids {
            if let Some(recs) = records.get(id) {
                let jumps = jump_counts.get(id).copied().unwrap_or(0);
                let first_ts = recs.first().map(|r| r.timestamp.as_str()).unwrap_or("-");
                let last_ts = recs.last().map(|r| r.timestamp.as_str()).unwrap_or("-");
                let last_lat = recs.last().map(|r| r.lat).unwrap_or(0.0);
                let last_lon = recs.last().map(|r| r.lon).unwrap_or(0.0);
                let jcol = match jumps {
                    0 => "#27ae60",
                    1..=15 => "#c97d10",
                    _ => "#c0392b",
                };
                let anchor = format!("#src-{id}");
                html.push_str(&format!(
                    r#"<tr><td><a href="{anchor}">{id}</a></td><td>{fixes}</td><td style="color:{jcol};font-weight:700">{jumps}</td><td>{first_ts}</td><td>{last_ts}</td><td>{last_lat:.6}, {last_lon:.6}</td></tr>
"#,
                    fixes = recs.len(),
                ));
            }
        }
        html.push_str("</tbody></table></div>\n");

        // ── Per-ID cards + Leaflet JS ─────────────────────────────────────────
        let mut map_scripts = String::new();

        for id in &ids {
            if let Some(recs) = records.get(id) {
                let jumps = jump_counts.get(id).copied().unwrap_or(0);
                let (badge_col, jump_label) = match jumps {
                    0 => ("#27ae60", "No large jumps".to_string()),
                    1 => ("#c97d10", "1 large jump".to_string()),
                    n => ("#c0392b", format!("{n} large jumps")),
                };
                let first_ts = recs.first().map(|r| r.timestamp.as_str()).unwrap_or("-");
                let last_ts = recs.last().map(|r| r.timestamp.as_str()).unwrap_or("-");
                let last_lat = recs.last().map(|r| r.lat).unwrap_or(0.0);
                let last_lon = recs.last().map(|r| r.lon).unwrap_or(0.0);
                let map_id = format!("map-{id}");

                html.push_str(&format!(
                    r#"<div class="card" id="src-{id}">
  <div class="card-hd">
    <h2>Source ID: {id}</h2>
    <span class="badge" style="background:{badge_col}">{jump_label}</span>
  </div>
  <div class="card-body">
    <div class="stats"><table>
      <tr><th>Total fixes</th><td>{fixes}</td></tr>
      <tr><th>Large jumps</th><td>{jumps}</td></tr>
      <tr><th>First fix</th><td>{first_ts}</td></tr>
      <tr><th>Last fix</th><td>{last_ts}</td></tr>
      <tr><th>Last latitude</th><td>{last_lat:.6}</td></tr>
      <tr><th>Last longitude</th><td>{last_lon:.6}</td></tr>
    </table></div>
    <div class="mapbox"><div id="{map_id}" style="height:360px;border-radius:6px;border:1px solid #c8d4e0"></div></div>
  </div>
</div>
"#,
                    fixes = recs.len(),
                ));

                // Build compact LatLng array: [[lat,lon],...]
                let coords_json: String = {
                    let mut s = String::with_capacity(recs.len() * 24);
                    s.push('[');
                    for (i, r) in recs.iter().enumerate() {
                        if i > 0 {
                            s.push(',');
                        }
                        s.push_str(&format!("[{:.6},{:.6}]", r.lat, r.lon));
                    }
                    s.push(']');
                    s
                };

                let clat = recs.last().map(|r| r.lat).unwrap_or(0.0);
                let clon = recs.last().map(|r| r.lon).unwrap_or(0.0);

                map_scripts.push_str(&format!(
                    r#"(function(){{
  var m=L.map('{map_id}').setView([{clat:.6},{clon:.6}],13);
  L.tileLayer('https://{{s}}.basemaps.cartocdn.com/rastertiles/voyager/{{z}}/{{x}}/{{y}}{{r}}.png',{{
    attribution:'&copy; <a href="https://www.openstreetmap.org/copyright">OpenStreetMap</a> contributors &copy; <a href="https://carto.com/attributions">CARTO</a>',
    subdomains:'abcd',
    maxZoom:20
  }}).addTo(m);
  var c={coords_json};
  if(c.length>0){{
    var pl=L.polyline(c,{{color:'#1e6ee6',weight:2.5}}).addTo(m);
    for(var i=1;i<c.length-1;i++){{
      L.circleMarker(c[i],{{color:'#ff8c00',fillColor:'#ff8c00',fillOpacity:1,radius:4,weight:1}}).addTo(m);
    }}
    L.circleMarker(c[0],{{color:'#22cc44',fillColor:'#22cc44',fillOpacity:1,radius:6,weight:2}}).addTo(m);
    if(c.length>1)L.circleMarker(c[c.length-1],{{color:'#dd3333',fillColor:'#dd3333',fillOpacity:1,radius:6,weight:2}}).addTo(m);
    m.fitBounds(pl.getBounds(),{{padding:[20,20]}});
  }}
}})();
"#
                ));
            }
        }

        html.push_str("</div>\n"); // close .wrap
        html.push_str(&format!("<script>\n{map_scripts}</script>\n"));
        html.push_str("</body>\n</html>");

        html
}

fn report_tracks(ids: &[String], records: &HashMap<String, Vec<Fix>>, jump_counts: &HashMap<String, usize>) -> Vec<ReportTrack> {
    ids.iter()
        .filter_map(|id| records.get(id).map(|recs| (id, recs)))
        .map(|(id, recs)| ReportTrack {
            id: id.clone(),
            fixes: recs.len(),
            jumps: jump_counts.get(id).copied().unwrap_or(0),
            first_ts: recs.first().map(|r| r.timestamp.clone()),
            last_ts: recs.last().map(|r| r.timestamp.clone()),
            last_lat: format!("{:.6}", recs.last().map(|r| r.lat).unwrap_or(0.0)),
            last_lon: format!("{:.6}", recs.last().map(|r| r.lon).unwrap_or(0.0)),
            coords: recs.iter().map(|r| (format!("{:.6}", r.lat), format!("{:.6}", r.lon))).collect(),
        })
        .collect()
}

fn fix(ts: &str, lat: f64, lon: f64) -> Fix {
    Fix { timestamp: ts.to_string(), lat, lon }
}

#[test]
fn html_report_matches_the_template() {
    let mut records = HashMap::new();
    records.insert("7".to_string(), vec![fix("t0", 29.5, -82.25), fix("t1", 29.6, -82.3), fix("t2", 29.7, -82.35)]);
    records.insert("12".to_string(), vec![fix("u0", 30.0, -81.0)]);
    records.insert("40".to_string(), vec![fix("v0", 1.0, 2.0), fix("v1", 3.0, 4.0)]);
    let mut jump_counts = HashMap::new();
    jump_counts.insert("7".to_string(), 0usize);
    jump_counts.insert("12".to_string(), 1usize);
    jump_counts.insert("40".to_string(), 20usize);
    let ids: Vec<String> = vec!["7".to_string(), "12".to_string(), "99".to_string(), "40".to_string()];
    let got = html_report(ids.len(), &report_tracks(&ids, &records, &jump_counts));
    let want = reference_report(ids.clone(), &records, &jump_counts);
    assert_eq!(got, want);
}

#[test]
fn html_report_badges_and_counts() {
    let mut records = HashMap::new();
    records.insert("5".to_string(), vec![fix("a", 0.0, 0.0), fix("b", 1.0, 1.0)]);
    let mut jump_counts = HashMap::new();
    jump_counts.insert("5".to_string(), 3usize);
    let ids = vec!["5".to_string()];
    let got = html_report(1, &report_tracks(&ids, &records, &jump_counts));
    assert!(got.contains("1 source ID(s)&ensp;&bull;&ensp;2 total fixes (after dedup)"));
    assert!(got.contains("<span class=\"badge\" style=\"background:#c0392b\">3 large jumps</span>"));
    assert!(got.contains("<td style=\"color:#c97d10;font-weight:700\">3</td>"));
    assert!(got.contains("var c=[[0.000000,0.000000],[1.000000,1.000000]];"));
    assert_eq!(got, reference_report(ids.clone(), &records, &jump_counts));
}
