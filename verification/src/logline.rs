//! MultiSpeak-style `rxLocationReport` log lines.
//!
//! A line is recognised, and its timestamp, source ID, latitude and longitude
//! are extracted, by the `regex` crate with the pattern [`LOG_LINE_PATTERN`];
//! what is done with the extracted fields is verified here.
use vstd::prelude::*;
use rayon::iter::{IntoParallelRefIterator, ParallelIterator};
use regex::Regex;
use crate::text::{chars_of, lines_of, lines_seq, string_from_chars};
use crate::track::{group_and_dedup, track_total, tracks_of, GpsRecord, ParseStats, SourceTrack};

verus! {

#[verifier::external_type_specification]
#[verifier::external_body]
pub struct ExRegex(Regex);

/// The pattern of a location report: a `MM/DD/YY HH:MM:SS.mmm` timestamp, then
/// (as little as possible of anything, then) `rxLocationReport targetId: ()
/// sourceId: (<digits>) latitude: (<[-digits.]>) longitude: (<[-digits.]>)`.
pub const LOG_LINE_PATTERN: &'static str = "(\\d{2}/\\d{2}/\\d{2} \\d{2}:\\d{2}:\\d{2}\\.\\d{3}).*?rxLocationReport targetId: \\(\\) sourceId: \\((\\d+)\\) latitude: \\(([-\\d.]+)\\) longitude: \\(([-\\d.]+)\\)";

/// Capture groups 1 to 4 of the first match of the regex compiled from
/// `pattern` in `line`, as the `regex` crate finds it; `None` when the line has
/// no match.
pub uninterp spec fn log_line_captures(pattern: Seq<char>, line: Seq<char>) -> Option<(Seq<char>, Seq<char>, Seq<char>, Seq<char>)>;

/// `Regex::new` on `pattern`. It is called only with [`LOG_LINE_PATTERN`], a
/// valid pattern for which `Regex::new` returns `Ok`, so the `expect` does not
/// fire. Nothing is assumed of the compiled regex here; what it finds is
/// stated by [`LogLineMatcher::fields`].
#[verifier::external_body]
fn compile_regex(pattern: &str) -> (re: Regex)
    requires
        pattern@ == LOG_LINE_PATTERN@,
{
    Regex::new(pattern).expect("the location-report pattern is a valid regex")
}

/// A compiled location-report pattern, together with the pattern text it was
/// compiled from.
pub struct LogLineMatcher {
    re: Regex,
    source: Ghost<Seq<char>>,
}

impl LogLineMatcher {
    /// Every matcher holds the location-report pattern: `source` is
    /// [`LOG_LINE_PATTERN`], the only text `compile_regex` accepts, so `re` is
    /// the regex compiled from `source`.
    #[verifier::type_invariant]
    spec fn holds_log_line_pattern(self) -> bool {
        self.source@ == LOG_LINE_PATTERN@
    }

    /// The text of the pattern this matcher was compiled from.
    pub closed spec fn pattern(&self) -> Seq<char> {
        self.source@
    }

    /// Compiles the location-report pattern [`LOG_LINE_PATTERN`].
    pub fn new() -> (m: Self)
        ensures
            m.pattern() == LOG_LINE_PATTERN@,
    {
        LogLineMatcher { re: compile_regex(LOG_LINE_PATTERN), source: Ghost(LOG_LINE_PATTERN@) }
    }

    /// `Regex::captures` on `line`, with groups 1 to 4 converted to a record
    /// (groups that always take part in a match). Assumed: the result is the
    /// capture groups the regex crate finds with the regex compiled from
    /// `self.pattern()`, named by `log_line_captures`.
    #[verifier::external_body]
    fn fields(&self, line: &str) -> (r: Option<GpsRecord>)
        ensures
            match r {
                Some(rec) => log_line_captures(self.pattern(), line@) == Some(
                    (rec.timestamp@, rec.source_id@, rec.lat@, rec.lon@),
                ),
                None => log_line_captures(self.pattern(), line@) is None,
            },
    {
        self.re.captures(line).map(
            |caps| GpsRecord {
                timestamp: caps[1].to_string(),
                source_id: caps[2].to_string(),
                lat: caps[3].to_string(),
                lon: caps[4].to_string(),
            },
        )
    }

    /// The location report in `line`, if it holds one.
    pub fn match_line(&self, line: &str) -> (r: Option<GpsRecord>)
        ensures
            match r {
                Some(rec) => log_line_captures(self.pattern(), line@) == Some(
                    (rec.timestamp@, rec.source_id@, rec.lat@, rec.lon@),
                ),
                None => log_line_captures(self.pattern(), line@) is None,
            },
    {
        self.fields(line)
    }
}

/// Matches every line, the lines in parallel: `rayon`'s `par_iter().map(..)
/// .collect()` over the lines, with [`LogLineMatcher::match_line`] as the map.
/// Assumed: the collected vector has one result per line, in the lines'
/// order (rayon documents that collecting an indexed parallel iterator keeps
/// its order), each being what `match_line` returns for that line.
#[verifier::external_body]
fn match_lines_parallel(matcher: &LogLineMatcher, lines: &Vec<String>) -> (ms: Vec<Option<GpsRecord>>)
    ensures
        ms@.len() == lines@.len(),
        forall|k: int|
            0 <= k < ms@.len() ==> match #[trigger] ms@[k] {
                Some(rec) => log_line_captures(matcher.pattern(), lines@[k]@) == Some(
                    (rec.timestamp@, rec.source_id@, rec.lat@, rec.lon@),
                ),
                None => log_line_captures(matcher.pattern(), lines@[k]@) is None,
            },
{
    lines.par_iter().map(|line| matcher.match_line(line)).collect()
}

/// The fixes of a sequence of per-line match results, in order.
pub open spec fn matched_records(ms: Seq<Option<GpsRecord>>) -> Seq<GpsRecord>
    decreases ms.len(),
{
    if ms.len() == 0 {
        Seq::empty()
    } else {
        let p = matched_records(ms.drop_last());
        match ms.last() {
            Some(r) => p.push(r),
            None => p,
        }
    }
}

/// Every line that holds a location report contributes its fix, after the
/// fixes of the lines before it, and a line without one contributes nothing.
pub proof fn lemma_matched_records_step(ms: Seq<Option<GpsRecord>>, m: Option<GpsRecord>)
    ensures
        matched_records(ms.push(m)) == match m {
            Some(r) => matched_records(ms).push(r),
            None => matched_records(ms),
        },
{
    assert(ms.push(m).drop_last() == ms);
}

/// The number of fixes read is the number of lines holding a location report,
/// and each fix is the record of one of those lines, in line order: the `i`-th
/// fix comes from the `i`-th matched line.
pub proof fn lemma_matched_records_count(ms: Seq<Option<GpsRecord>>)
    ensures
        matched_records(ms).len() == ms.filter(|m: Option<GpsRecord>| m is Some).len(),
        forall|i: int|
            0 <= i < matched_records(ms).len() ==> Some(#[trigger] matched_records(ms)[i]) == ms.filter(
                |m: Option<GpsRecord>| m is Some,
            )[i],
    decreases ms.len(),
{
    reveal(Seq::filter);
    if ms.len() > 0 {
        lemma_matched_records_count(ms.drop_last());
        assert(ms.drop_last().push(ms.last()) == ms);
        lemma_matched_records_step(ms.drop_last(), ms.last());
    }
}

/// Builds the per-source trails from the per-line match results: the matched
/// fixes, in line order, grouped by source ID, with repeated positions removed.
pub fn records_from_matches<F: Fn(&GpsRecord, &GpsRecord) -> bool + Sync>(
    matches: Vec<Option<GpsRecord>>,
    moved: &F,
) -> (res: (Vec<SourceTrack>, ParseStats))
    requires
        forall|a: &GpsRecord, b: &GpsRecord| moved.requires((a, b)),
    ensures
        tracks_of(matched_records(matches@), res.0@, *moved),
        res.1.raw_fixes == matched_records(matches@).len(),
        res.1.after_dedup == track_total(res.0@),
{
    let ghost ms = matches@;
    let n = matches.len();
    let mut input = matches;
    let mut stack: Vec<Option<GpsRecord>> = Vec::new();
    while input.len() > 0
        invariant
            n == ms.len(),
            input@.len() + stack@.len() == n,
            forall|k: int| 0 <= k < input@.len() ==> #[trigger] input@[k] == ms[k],
            forall|k: int| 0 <= k < stack@.len() ==> #[trigger] stack@[k] == ms[n - 1 - k],
        decreases input.len(),
    {
        let x = input.pop().unwrap();
        stack.push(x);
    }
    let mut records: Vec<GpsRecord> = Vec::new();
    let mut i: usize = 0;
    while i < n
        invariant
            n == ms.len(),
            i <= n,
            stack@.len() == n - i,
            forall|k: int| 0 <= k < stack@.len() ==> #[trigger] stack@[k] == ms[n - 1 - k],
            records@ == matched_records(ms.take(i as int)),
        decreases n - i,
    {
        let m = stack.pop().unwrap();
        assert(ms.take(i + 1).drop_last() == ms.take(i as int));
        assert(ms.take(i + 1).last() == m);
        match m {
            Some(r) => records.push(r),
            None => {},
        }
        i = i + 1;
    }
    assert(ms.take(n as int) == ms);
    group_and_dedup(records, moved)
}

/// The per-line match results of the lines `ls`.
pub open spec fn line_matches_ok(ls: Seq<Seq<char>>, ms: Seq<Option<GpsRecord>>) -> bool {
    &&& ms.len() == ls.len()
    &&& forall|k: int|
        0 <= k < ms.len() ==> match #[trigger] ms[k] {
            Some(rec) => log_line_captures(LOG_LINE_PATTERN@, ls[k]) == Some(
                (rec.timestamp@, rec.source_id@, rec.lat@, rec.lon@),
            ),
            None => log_line_captures(LOG_LINE_PATTERN@, ls[k]) is None,
        }
}

/// Parses a MultiSpeak-style log: every line (as `str::lines` splits them) that
/// holds a location report gives a fix; the fixes are grouped by source ID in
/// line order and repeated positions are removed with `moved`.
pub fn parse_log<F: Fn(&GpsRecord, &GpsRecord) -> bool + Sync>(content: &str, moved: &F) -> (res: (
    Vec<SourceTrack>,
    ParseStats,
))
    requires
        forall|a: &GpsRecord, b: &GpsRecord| moved.requires((a, b)),
    ensures
        exists|ms: Seq<Option<GpsRecord>>|
            {
                &&& line_matches_ok(lines_seq(content@), ms)
                &&& tracks_of(matched_records(ms), res.0@, *moved)
                &&& res.1.raw_fixes == matched_records(ms).len()
                &&& res.1.after_dedup == track_total(res.0@)
            },
{
    let matcher = LogLineMatcher::new();
    let chars = chars_of(content);
    let lines = lines_of(&chars);
    let ghost ls = lines_seq(content@);
    let mut texts: Vec<String> = Vec::new();
    let mut i: usize = 0;
    while i < lines.len()
        invariant
            lines@.len() == ls.len(),
            forall|k: int| 0 <= k < ls.len() ==> #[trigger] lines@[k]@ == ls[k],
            i <= ls.len(),
            texts@.len() == i,
            forall|k: int| 0 <= k < i ==> #[trigger] texts@[k]@ == ls[k],
        decreases lines.len() - i,
    {
        texts.push(string_from_chars(&lines[i]));
        i = i + 1;
    }
    let matches = match_lines_parallel(&matcher, &texts);
    let ghost ms = matches@;
    assert(line_matches_ok(ls, ms)) by {
        assert forall|k: int| 0 <= k < ms.len() implies match #[trigger] ms[k] {
            Some(rec) => log_line_captures(LOG_LINE_PATTERN@, ls[k]) == Some((rec.timestamp@, rec.source_id@, rec.lat@, rec.lon@)),
            None => log_line_captures(LOG_LINE_PATTERN@, ls[k]) is None,
        } by {
            assert(texts@[k]@ == ls[k]);
        }
    }
    records_from_matches(matches, moved)
}

} // verus!
