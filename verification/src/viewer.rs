//! The decisions of the viewer that do not depend on coordinates: jump
//! severity and its wording, the order of source IDs, the ID filter, the
//! selection, the status line, and which reader a file goes to.
use vstd::prelude::*;
use crate::number::{decimal_seq, parse_u64, parse_unsigned_seq, push_decimal};
use crate::text::{
    ascii_lower, ascii_lower_char, chars_of, has_prefix, push_str, string_from_chars,
};

verus! {

// ── jump severity ────────────────────────────────────────────────────────────

/// The most large jumps a source may show and still be rated moderate.
pub const MODERATE_JUMP_LIMIT: usize = 15;

/// How troubling a source's jumps are: none, a few (1 to 15), many.
#[derive(PartialEq, Eq, Structural, Debug, Clone, Copy)]
pub enum JumpSeverity {
    Clean,
    Moderate,
    Severe,
}

/// The severity band of a jump count: none, 1 to 15, more.
pub open spec fn severity_of(jumps: int) -> JumpSeverity {
    if jumps <= 0 {
        JumpSeverity::Clean
    } else if jumps <= MODERATE_JUMP_LIMIT {
        JumpSeverity::Moderate
    } else {
        JumpSeverity::Severe
    }
}

/// The severity of `jumps` large jumps (green, yellow, red in the viewer).
pub fn jump_severity(jumps: usize) -> (s: JumpSeverity)
    ensures
        s == severity_of(jumps as int),
        jumps == 0 ==> s == JumpSeverity::Clean,
        1 <= jumps <= 15 ==> s == JumpSeverity::Moderate,
        jumps > 15 ==> s == JumpSeverity::Severe,
{
    if jumps == 0 {
        JumpSeverity::Clean
    } else if jumps <= MODERATE_JUMP_LIMIT {
        JumpSeverity::Moderate
    } else {
        JumpSeverity::Severe
    }
}

/// The wording of a jump count in the detail view and the HTML report.
pub open spec fn jump_label_seq(jumps: usize) -> Seq<char> {
    if jumps == 0 {
        "No large jumps"@
    } else if jumps == 1 {
        "1 large jump"@
    } else {
        decimal_seq(jumps as nat) + " large jumps"@
    }
}

/// `"No large jumps"`, `"1 large jump"` or `"<n> large jumps"`.
pub fn jump_label(jumps: usize) -> (s: String)
    ensures
        s@ == jump_label_seq(jumps),
{
    let mut v: Vec<char> = Vec::new();
    if jumps == 0 {
        push_str(&mut v, "No large jumps");
    } else if jumps == 1 {
        push_str(&mut v, "1 large jump");
    } else {
        push_decimal(&mut v, jumps as u64);
        push_str(&mut v, " large jumps");
    }
    string_from_chars(&v)
}

/// The wording of a jump count on a PDF page.
pub open spec fn pdf_jump_label_seq(jumps: usize) -> Seq<char> {
    if jumps == 0 {
        "No large jumps"@
    } else if jumps <= 15 {
        decimal_seq(jumps as nat) + " large jump(s)"@
    } else {
        decimal_seq(jumps as nat) + " large jumps"@
    }
}

/// `"No large jumps"`, `"<n> large jump(s)"` (up to 15) or `"<n> large jumps"`.
pub fn pdf_jump_label(jumps: usize) -> (s: String)
    ensures
        s@ == pdf_jump_label_seq(jumps),
{
    let mut v: Vec<char> = Vec::new();
    if jumps == 0 {
        push_str(&mut v, "No large jumps");
    } else if jumps <= MODERATE_JUMP_LIMIT {
        push_decimal(&mut v, jumps as u64);
        push_str(&mut v, " large jump(s)");
    } else {
        push_decimal(&mut v, jumps as u64);
        push_str(&mut v, " large jumps");
    }
    string_from_chars(&v)
}

// ── order of source IDs ──────────────────────────────────────────────────────

/// The sort key of a source ID: its value as a `u64`, `u64::MAX` when it is
/// not one.
pub open spec fn id_key(id: Seq<char>) -> int {
    match parse_unsigned_seq(id, u64::MAX as int) {
        Some(v) => v,
        None => u64::MAX as int,
    }
}

/// Where `x` goes into the ordered `s`: before the first ID with a larger key.
pub open spec fn id_insert_position(s: Seq<Seq<char>>, x: Seq<char>) -> int
    decreases s.len(),
{
    if s.len() == 0 {
        0
    } else if id_key(x) < id_key(s[0]) {
        0
    } else {
        1 + id_insert_position(s.drop_first(), x)
    }
}

/// The IDs `s` ordered by key, IDs with equal keys keeping their order
/// (`sort_by_key`, which is stable).
pub open spec fn id_order(s: Seq<Seq<char>>) -> Seq<Seq<char>>
    decreases s.len(),
{
    if s.len() == 0 {
        Seq::empty()
    } else {
        let p = id_order(s.drop_last());
        p.insert(id_insert_position(p, s.last()), s.last())
    }
}

proof fn lemma_id_insert_position(s: Seq<Seq<char>>, x: Seq<char>)
    ensures
        0 <= id_insert_position(s, x) <= s.len(),
        forall|k: int| 0 <= k < id_insert_position(s, x) ==> id_key(#[trigger] s[k]) <= id_key(x),
        id_insert_position(s, x) < s.len() ==> id_key(x) < id_key(s[id_insert_position(s, x)]),
    decreases s.len(),
{
    if s.len() > 0 && !(id_key(x) < id_key(s[0])) {
        lemma_id_insert_position(s.drop_first(), x);
        assert forall|k: int| 0 <= k < id_insert_position(s, x) implies id_key(#[trigger] s[k]) <= id_key(x) by {
            if k > 0 {
                assert(s[k] == s.drop_first()[k - 1]);
            }
        }
    }
}

/// The ordered IDs have non-decreasing keys and are the same IDs.
pub proof fn lemma_id_order(s: Seq<Seq<char>>)
    ensures
        forall|i: int, j: int|
            0 <= i < j < id_order(s).len() ==> id_key(#[trigger] id_order(s)[i]) <= id_key(
                #[trigger] id_order(s)[j],
            ),
        id_order(s).to_multiset() == s.to_multiset(),
    decreases s.len(),
{
    broadcast use vstd::seq_lib::group_to_multiset_ensures;

    if s.len() > 0 {
        let p = id_order(s.drop_last());
        let x = s.last();
        lemma_id_order(s.drop_last());
        lemma_id_insert_position(p, x);
        let q = id_insert_position(p, x);
        let r = p.insert(q, x);
        assert forall|i: int, j: int| 0 <= i < j < r.len() implies id_key(#[trigger] r[i]) <= id_key(#[trigger] r[j]) by {
            if j < q {
                assert(r[i] == p[i] && r[j] == p[j]);
            } else if j == q {
                assert(r[i] == p[i]);
            } else if i < q {
                assert(r[i] == p[i] && r[j] == p[j - 1]);
            } else if i == q {
                assert(r[j] == p[j - 1]);
                if j - 1 > q {
                    assert(id_key(p[q]) <= id_key(p[j - 1]));
                }
            } else {
                assert(r[i] == p[i - 1] && r[j] == p[j - 1]);
            }
        }
        assert(s.drop_last().push(x) == s);
    }
}

/// The sort key of a source ID.
fn id_sort_key(id: &String) -> (k: u64)
    ensures
        k as int == id_key(id@),
{
    let cs = chars_of(id.as_str());
    match parse_u64(&cs) {
        Some(v) => v,
        None => u64::MAX,
    }
}

/// Orders source IDs numerically; IDs that are not numbers go last; IDs with
/// equal keys keep their order.
pub fn sort_source_ids(ids: Vec<String>) -> (sorted: Vec<String>)
    ensures
        sorted@.len() == ids@.len(),
        forall|i: int| 0 <= i < sorted@.len() ==> #[trigger] sorted@[i]@ == id_order(views(ids@))[i],
{
    let ghost vs = views(ids@);
    let n = ids.len();
    let mut input = ids;
    let mut stack: Vec<String> = Vec::new();
    while input.len() > 0
        invariant
            n == vs.len(),
            input@.len() + stack@.len() == n,
            forall|k: int| 0 <= k < input@.len() ==> #[trigger] input@[k]@ == vs[k],
            forall|k: int| 0 <= k < stack@.len() ==> #[trigger] stack@[k]@ == vs[n - 1 - k],
        decreases input.len(),
    {
        let x = input.pop().unwrap();
        stack.push(x);
    }
    let mut sorted: Vec<String> = Vec::new();
    let mut keys: Vec<u64> = Vec::new();
    let mut i: usize = 0;
    while i < n
        invariant
            n == vs.len(),
            i <= n,
            stack@.len() == n - i,
            forall|k: int| 0 <= k < stack@.len() ==> #[trigger] stack@[k]@ == vs[n - 1 - k],
            sorted@.len() == id_order(vs.take(i as int)).len(),
            keys@.len() == sorted@.len(),
            forall|k: int| 0 <= k < sorted@.len() ==> #[trigger] sorted@[k]@ == id_order(vs.take(i as int))[k]
                && keys@[k] as int == id_key(sorted@[k]@),
        decreases n - i,
    {
        let x = stack.pop().unwrap();
        assert(vs.take(i + 1).drop_last() == vs.take(i as int));
        assert(vs.take(i + 1).last() == x@);
        let kx = id_sort_key(&x);
        let ghost ord = id_order(vs.take(i as int));
        let mut p: usize = 0;
        assert(ord.skip(0) == ord);
        while p < sorted.len() && !(kx < keys[p])
            invariant
                i < n,
                p <= sorted@.len(),
                keys@.len() == sorted@.len(),
                sorted@.len() == ord.len(),
                kx as int == id_key(x@),
                forall|k: int| 0 <= k < sorted@.len() ==> #[trigger] sorted@[k]@ == ord[k] && keys@[k] as int == id_key(sorted@[k]@),
                id_insert_position(ord, x@) == p + id_insert_position(ord.skip(p as int), x@),
            decreases sorted.len() - p,
        {
            assert(sorted@[p as int]@ == ord[p as int]);
            assert(ord.skip(p as int)[0] == ord[p as int]);
            assert(ord.skip(p as int).drop_first() == ord.skip(p + 1));
            p = p + 1;
        }
        if p < sorted.len() {
            assert(sorted@[p as int]@ == ord[p as int]);
            assert(ord.skip(p as int)[0] == ord[p as int]);
        } else {
            assert(ord.skip(p as int) =~= Seq::<Seq<char>>::empty());
        }
        assert(id_insert_position(ord, x@) == p);
        let ghost before_s = sorted@;
        let ghost before_k = keys@;
        let ghost xv = x@;
        sorted.insert(p, x);
        keys.insert(p, kx);
        assert(id_order(vs.take(i + 1)) == ord.insert(p as int, xv));
        assert forall|k: int| 0 <= k < sorted@.len() implies #[trigger] sorted@[k]@ == id_order(vs.take(i + 1))[k]
            && keys@[k] as int == id_key(sorted@[k]@) by {
            if k < p {
                assert(sorted@[k] == before_s[k] && keys@[k] == before_k[k]);
            } else if k > p {
                assert(sorted@[k] == before_s[k - 1] && keys@[k] == before_k[k - 1]);
            }
        }
        i = i + 1;
    }
    assert(vs.take(n as int) == vs);
    proof {
        lemma_id_order_len(vs);
    }
    sorted
}

proof fn lemma_id_order_len(s: Seq<Seq<char>>)
    ensures
        id_order(s).len() == s.len(),
    decreases s.len(),
{
    if s.len() > 0 {
        lemma_id_order_len(s.drop_last());
        lemma_id_insert_position(id_order(s.drop_last()), s.last());
    }
}

// ── filter and selection ─────────────────────────────────────────────────────

/// The texts of a list of strings.
pub open spec fn views(v: Seq<String>) -> Seq<Seq<char>> {
    v.map_values(|s: String| s@)
}

/// `c` has the Unicode `White_Space` property (`char::is_whitespace`).
pub open spec fn is_white_space(c: char) -> bool {
    let u = c as u32;
    (0x09 <= u && u <= 0x0d) || u == 0x20 || u == 0x85 || u == 0xa0 || u == 0x1680 || (0x2000 <= u
        && u <= 0x200a) || u == 0x2028 || u == 0x2029 || u == 0x202f || u == 0x205f || u == 0x3000
}

/// `s` without leading and trailing white space (`str::trim`).
pub open spec fn trim_ws(s: Seq<char>) -> Seq<char>
    decreases s.len(),
{
    if s.len() > 0 && is_white_space(s[0]) {
        trim_ws(s.drop_first())
    } else if s.len() > 0 && is_white_space(s.last()) {
        trim_ws(s.drop_last())
    } else {
        s
    }
}

/// `s` with ASCII letters in lower case (`str::to_ascii_lowercase`).
pub open spec fn ascii_lower_seq(s: Seq<char>) -> Seq<char> {
    s.map_values(|c: char| ascii_lower(c))
}

/// `needle` occurs in `hay` (`str::contains`).
pub open spec fn contains_seq(hay: Seq<char>, needle: Seq<char>) -> bool {
    exists|i: int| 0 <= i <= hay.len() - needle.len() && #[trigger] hay.subrange(i, i + needle.len()) == needle
}

/// The sidebar shows an ID when the trimmed, lower-cased query is empty or
/// occurs in the lower-cased ID.
pub open spec fn id_shown(id: Seq<char>, query: Seq<char>) -> bool {
    let q = ascii_lower_seq(trim_ws(query));
    q.len() == 0 || contains_seq(ascii_lower_seq(id), q)
}

fn is_ws(c: char) -> (r: bool)
    ensures
        r == is_white_space(c),
{
    let u = c as u32;
    (0x09 <= u && u <= 0x0d) || u == 0x20 || u == 0x85 || u == 0xa0 || u == 0x1680 || (0x2000 <= u
        && u <= 0x200a) || u == 0x2028 || u == 0x2029 || u == 0x202f || u == 0x205f || u == 0x3000
}

proof fn lemma_trim_ws_bounds(s: Seq<char>, lo: int, hi: int)
    requires
        0 <= lo <= hi <= s.len(),
        forall|k: int| 0 <= k < lo ==> is_white_space(#[trigger] s[k]),
        forall|k: int| hi <= k < s.len() ==> is_white_space(#[trigger] s[k]),
        lo < hi ==> !is_white_space(s[lo]) && !is_white_space(s[hi - 1]),
    ensures
        trim_ws(s) == s.subrange(lo, hi),
    decreases s.len(),
{
    if s.len() > 0 && is_white_space(s[0]) {
        if lo > 0 {
            assert forall|k: int| 0 <= k < lo - 1 implies is_white_space(#[trigger] s.drop_first()[k]) by {
                assert(s.drop_first()[k] == s[k + 1]);
            }
            assert forall|k: int| hi - 1 <= k < s.len() - 1 implies is_white_space(#[trigger] s.drop_first()[k]) by {
                assert(s.drop_first()[k] == s[k + 1]);
            }
            lemma_trim_ws_bounds(s.drop_first(), lo - 1, hi - 1);
            assert(s.drop_first().subrange(lo - 1, hi - 1) == s.subrange(lo, hi));
        } else {
            // lo == 0: then hi == 0 too
            assert(hi == 0);
            assert forall|k: int| hi <= k < s.len() - 1 implies is_white_space(#[trigger] s.drop_first()[k]) by {
                assert(s.drop_first()[k] == s[k + 1]);
            }
            lemma_trim_ws_bounds(s.drop_first(), 0, 0);
            assert(s.drop_first().subrange(0, 0) =~= s.subrange(0, 0));
        }
    } else if s.len() > 0 && is_white_space(s.last()) {
        assert(hi < s.len());
        assert forall|k: int| 0 <= k < lo implies is_white_space(#[trigger] s.drop_last()[k]) by {
            assert(s.drop_last()[k] == s[k]);
        }
        assert forall|k: int| hi <= k < s.len() - 1 implies is_white_space(#[trigger] s.drop_last()[k]) by {
            assert(s.drop_last()[k] == s[k]);
        }
        lemma_trim_ws_bounds(s.drop_last(), lo, hi);
        assert(s.drop_last().subrange(lo, hi) == s.subrange(lo, hi));
    } else {
        if s.len() > 0 {
            assert(lo == 0 && hi == s.len());
        }
        assert(s.subrange(lo, hi) =~= s);
    }
}

/// The trimmed, lower-cased query.
fn normalized_query(query: &str) -> (q: Vec<char>)
    ensures
        q@ == ascii_lower_seq(trim_ws(query@)),
{
    let cs = chars_of(query);
    let mut lo: usize = 0;
    while lo < cs.len() && is_ws(cs[lo])
        invariant
            lo <= cs@.len(),
            forall|k: int| 0 <= k < lo ==> is_white_space(#[trigger] cs@[k]),
        decreases cs.len() - lo,
    {
        lo = lo + 1;
    }
    let mut hi: usize = cs.len();
    while hi > lo && is_ws(cs[hi - 1])
        invariant
            lo <= hi <= cs@.len(),
            forall|k: int| hi <= k < cs@.len() ==> is_white_space(#[trigger] cs@[k]),
        decreases hi,
    {
        hi = hi - 1;
    }
    proof {
        lemma_trim_ws_bounds(cs@, lo as int, hi as int);
    }
    let mut q: Vec<char> = Vec::new();
    let mut i: usize = lo;
    while i < hi
        invariant
            lo <= i <= hi <= cs@.len(),
            q@ == ascii_lower_seq(cs@.subrange(lo as int, i as int)),
        decreases hi - i,
    {
        q.push(ascii_lower_char(cs[i]));
        assert(ascii_lower_seq(cs@.subrange(lo as int, i + 1)) =~= ascii_lower_seq(
            cs@.subrange(lo as int, i as int),
        ).push(ascii_lower(cs@[i as int])));
        i = i + 1;
    }
    q
}

fn lower_chars(s: &str) -> (v: Vec<char>)
    ensures
        v@ == ascii_lower_seq(s@),
{
    let cs = chars_of(s);
    let mut v: Vec<char> = Vec::new();
    let mut i: usize = 0;
    while i < cs.len()
        invariant
            i <= cs@.len(),
            v@ == ascii_lower_seq(cs@.take(i as int)),
        decreases cs.len() - i,
    {
        v.push(ascii_lower_char(cs[i]));
        assert(ascii_lower_seq(cs@.take(i + 1)) =~= ascii_lower_seq(cs@.take(i as int)).push(
            ascii_lower(cs@[i as int]),
        ));
        i = i + 1;
    }
    assert(cs@.take(cs@.len() as int) == cs@);
    v
}

/// `needle` occurs in `hay`.
fn contains_chars(hay: &[char], needle: &[char]) -> (r: bool)
    ensures
        r == contains_seq(hay@, needle@),
{
    if needle.len() > hay.len() {
        return false;
    }
    let mut i: usize = 0;
    while i <= hay.len() - needle.len()
        invariant
            needle@.len() <= hay@.len(),
            i <= hay@.len() - needle@.len() + 1,
            forall|k: int| 0 <= k < i ==> #[trigger] hay@.subrange(k, k + needle@.len()) != needle@,
        decreases hay.len() - i,
    {
        let mut j: usize = 0;
        let mut same = true;
        while same && j < needle.len()
            invariant
                i + needle.len() <= hay.len(),
                j <= needle@.len(),
                forall|q: int| 0 <= q < j ==> hay@[i + q] == needle@[q],
                !same ==> j < needle@.len() && hay@[i + j] != needle@[j as int],
            decreases needle.len() - j, if same { 1int } else { 0int },
        {
            let at: usize = i + j;
            if hay[at] == needle[j] {
                j = j + 1;
            } else {
                same = false;
            }
        }
        if j == needle.len() {
            assert(hay@.subrange(i as int, i + needle@.len()) =~= needle@);
            return true;
        }
        assert(hay@.subrange(i as int, i + needle@.len())[j as int] != needle@[j as int]);
        i = i + 1;
    }
    false
}

/// The IDs of `sorted_ids` the sidebar shows for `query`, in order.
pub fn filter_ids(sorted_ids: &Vec<String>, query: &str) -> (shown: Vec<String>)
    ensures
        views(shown@) == views(sorted_ids@).filter(
            |id: Seq<char>| id_shown(id, query@),
        ),
{
    let q = normalized_query(query);
    let ghost all = views(sorted_ids@);
    let ghost pred = |id: Seq<char>| id_shown(id, query@);
    let mut shown: Vec<String> = Vec::new();
    let mut i: usize = 0;
    while i < sorted_ids.len()
        invariant
            i <= sorted_ids@.len(),
            all == views(sorted_ids@),
            q@ == ascii_lower_seq(trim_ws(query@)),
            pred == (|id: Seq<char>| id_shown(id, query@)),
            views(shown@) == all.take(i as int).filter(pred),
        decreases sorted_ids.len() - i,
    {
        let id = &sorted_ids[i];
        let keep = if q.len() == 0 {
            true
        } else {
            let low = lower_chars(id.as_str());
            contains_chars(&low, &q)
        };
        assert(keep == pred(all[i as int]));
        assert(all.take(i + 1).drop_last() == all.take(i as int));
        reveal_with_fuel(Seq::filter, 1);
        let ghost before = shown@;
        if keep {
            shown.push(id.clone());
            assert(views(shown@) =~= views(before).push(id@));
        }
        i = i + 1;
    }
    assert(all.take(sorted_ids@.len() as int) == all);
    shown
}

/// The IDs of `sorted_ids` that are selected, in order.
pub fn selected_ids_sorted(sorted_ids: &Vec<String>, selection: &Vec<String>) -> (sel: Vec<String>)
    ensures
        views(sel@) == views(sorted_ids@).filter(
            |id: Seq<char>| views(selection@).contains(id),
        ),
{
    let ghost all = views(sorted_ids@);
    let ghost selv = views(selection@);
    let ghost pred = |id: Seq<char>| selv.contains(id);
    let mut out: Vec<String> = Vec::new();
    let mut i: usize = 0;
    while i < sorted_ids.len()
        invariant
            i <= sorted_ids@.len(),
            all == views(sorted_ids@),
            selv == views(selection@),
            pred == (|id: Seq<char>| selv.contains(id)),
            views(out@) == all.take(i as int).filter(pred),
        decreases sorted_ids.len() - i,
    {
        let id = &sorted_ids[i];
        let keep = contains_id(selection, id);
        assert(keep == pred(all[i as int]));
        assert(all.take(i + 1).drop_last() == all.take(i as int));
        reveal_with_fuel(Seq::filter, 1);
        let ghost before = out@;
        if keep {
            out.push(id.clone());
            assert(views(out@) =~= views(before).push(id@));
        }
        i = i + 1;
    }
    assert(all.take(sorted_ids@.len() as int) == all);
    out
}

/// `id` is among `ids`.
fn contains_id(ids: &Vec<String>, id: &String) -> (r: bool)
    ensures
        r == views(ids@).contains(id@),
{
    let ghost v = views(ids@);
    let mut k: usize = 0;
    while k < ids.len()
        invariant
            k <= ids@.len(),
            v == views(ids@),
            forall|q: int| 0 <= q < k ==> v[q] != id@,
        decreases ids.len() - k,
    {
        if ids[k] == *id {
            assert(v[k as int] == id@);
            return true;
        }
        k = k + 1;
    }
    false
}

/// The selection after a click on `id`: with Ctrl held, `id` is added or
/// removed; without, it becomes the only selected ID.
pub fn click_selection(selection: Vec<String>, id: String, ctrl: bool) -> (sel: Vec<String>)
    requires
        views(selection@).no_duplicates(),
    ensures
        views(sel@).no_duplicates(),
        forall|x: Seq<char>|
            #[trigger] views(sel@).contains(x) <==> if ctrl {
                if views(selection@).contains(id@) {
                    views(selection@).contains(x) && x != id@
                } else {
                    views(selection@).contains(x) || x == id@
                }
            } else {
                x == id@
            },
{
    let ghost old_v = views(selection@);
    if !ctrl {
        let mut out: Vec<String> = Vec::new();
        let ghost idv = id@;
        out.push(id);
        assert(views(out@) =~= seq![idv]);
        assert forall|x: Seq<char>| #[trigger] views(out@).contains(x) <==> x == idv by {
            if x == idv {
                assert(views(out@)[0] == x);
            }
        }
        return out;
    }
    let present = contains_id(&selection, &id);
    if present {
        let mut out: Vec<String> = Vec::new();
        let mut k: usize = 0;
        while k < selection.len()
            invariant
                k <= selection@.len(),
                old_v == views(selection@),
                old_v.no_duplicates(),
                views(out@).no_duplicates(),
                forall|x: Seq<char>|
                    #[trigger] views(out@).contains(x) <==> old_v.take(k as int).contains(x)
                        && x != id@,
            decreases selection.len() - k,
        {
            let ghost before = views(out@);
            let ghost cur = old_v[k as int];
            assert(cur == selection@[k as int]@);
            assert(old_v.take(k + 1) == old_v.take(k as int).push(cur));
            assert(!old_v.take(k as int).contains(cur)) by {
                if old_v.take(k as int).contains(cur) {
                    let w = choose|w: int| 0 <= w < k && old_v.take(k as int)[w] == cur;
                    assert(old_v[w] == old_v[k as int]);
                }
            }
            if selection[k] != id {
                out.push(selection[k].clone());
                let ghost nv = views(out@);
                assert(nv =~= before.push(cur));
                assert forall|x: Seq<char>| #[trigger] nv.contains(x) <==> old_v.take(k + 1).contains(x) && x != id@ by {
                    let t1 = old_v.take(k + 1);
                    if x == cur {
                        assert(t1[k as int] == x);
                        assert(nv[before.len() as int] == x);
                    }
                    if t1.contains(x) && x != cur {
                        let w = choose|w: int| 0 <= w < t1.len() && t1[w] == x;
                        assert(old_v.take(k as int)[w] == x);
                        assert(old_v.take(k as int).contains(x));
                    }
                    if nv.contains(x) && x != cur {
                        let w = choose|w: int| 0 <= w < nv.len() && nv[w] == x;
                        assert(before[w] == x);
                    }
                    if before.contains(x) {
                        let w = choose|w: int| 0 <= w < before.len() && before[w] == x;
                        assert(nv[w] == x);
                    }
                }
                assert forall|a: int, b: int| 0 <= a < nv.len() && 0 <= b < nv.len() && a != b implies nv[a] != nv[b] by {
                    if a == before.len() as int {
                        assert(before.contains(nv[b]));
                    } else if b == before.len() as int {
                        assert(before.contains(nv[a]));
                    } else {
                        assert(nv[a] == before[a] && nv[b] == before[b]);
                    }
                }
            } else {
                assert forall|x: Seq<char>| #[trigger] before.contains(x) <==> old_v.take(k + 1).contains(x) && x != id@ by {
                    let t1 = old_v.take(k + 1);
                    if t1.contains(x) && x != cur {
                        let w = choose|w: int| 0 <= w < t1.len() && t1[w] == x;
                        assert(old_v.take(k as int)[w] == x);
                    }
                }
            }
            k = k + 1;
        }
        assert(old_v.take(selection@.len() as int) == old_v);
        out
    } else {
        let mut out = selection;
        let ghost idv = id@;
        out.push(id);
        assert(views(out@) =~= old_v.push(idv));
        assert forall|x: Seq<char>| #[trigger] views(out@).contains(x) <==> old_v.contains(x) || x == idv by {
            let nv = views(out@);
            if x == idv {
                assert(nv[old_v.len() as int] == x);
            }
            if old_v.contains(x) {
                let w = choose|w: int| 0 <= w < old_v.len() && old_v[w] == x;
                assert(nv[w] == x);
            }
            if nv.contains(x) && x != idv {
                let w = choose|w: int| 0 <= w < nv.len() && nv[w] == x;
                assert(w < old_v.len());
                assert(old_v[w] == x);
            }
        }
        assert(views(out@).no_duplicates()) by {
            let nv = views(out@);
            assert forall|a: int, b: int| 0 <= a < nv.len() && 0 <= b < nv.len() && a != b implies nv[a] != nv[b] by {
                if a == old_v.len() as int {
                    assert(!old_v.contains(nv[b]) || nv[b] != idv);
                    assert(old_v[b] == nv[b]);
                } else if b == old_v.len() as int {
                    assert(old_v[a] == nv[a]);
                } else {
                    assert(old_v[a] == nv[a] && old_v[b] == nv[b]);
                }
            }
        }
        out
    }
}

// ── status line and file kind ────────────────────────────────────────────────

/// The status line after a load.
pub open spec fn load_status_seq(id_count: usize, after_dedup: usize, raw_fixes: usize, path: Seq<char>) -> Seq<char> {
    let removed: nat = if raw_fixes >= after_dedup {
        (raw_fixes - after_dedup) as nat
    } else {
        0
    };
    decimal_seq(id_count as nat) + " source IDs  |  "@ + decimal_seq(after_dedup as nat)
        + " fixes  |  "@ + decimal_seq(removed) + " duplicate positions removed  |  "@ + path
}

/// `"<ids> source IDs  |  <fixes> fixes  |  <removed> duplicate positions
/// removed  |  <path>"`, where the removed count is `raw_fixes - after_dedup`,
/// or 0 should that be negative.
pub fn load_status(id_count: usize, after_dedup: usize, raw_fixes: usize, path: &str) -> (s: String)
    ensures
        s@ == load_status_seq(id_count, after_dedup, raw_fixes, path@),
{
    let removed = raw_fixes.saturating_sub(after_dedup);
    let mut v: Vec<char> = Vec::new();
    push_decimal(&mut v, id_count as u64);
    push_str(&mut v, " source IDs  |  ");
    push_decimal(&mut v, after_dedup as u64);
    push_str(&mut v, " fixes  |  ");
    push_decimal(&mut v, removed as u64);
    push_str(&mut v, " duplicate positions removed  |  ");
    push_str(&mut v, path);
    string_from_chars(&v)
}

/// The summary line of the PDF report.
pub open spec fn pdf_summary_seq(id_count: usize, total_fixes: usize) -> Seq<char> {
    decimal_seq(id_count as nat) + " source IDs  |  "@ + decimal_seq(total_fixes as nat)
        + " total fixes (after dedup)"@
}

/// `"<ids> source IDs  |  <fixes> total fixes (after dedup)"`, the summary line
/// of the PDF report.
pub fn pdf_summary_line(id_count: usize, total_fixes: usize) -> (s: String)
    ensures
        s@ == pdf_summary_seq(id_count, total_fixes),
{
    let mut v: Vec<char> = Vec::new();
    push_decimal(&mut v, id_count as u64);
    push_str(&mut v, " source IDs  |  ");
    push_decimal(&mut v, total_fixes as u64);
    push_str(&mut v, " total fixes (after dedup)");
    string_from_chars(&v)
}

/// The line under the ID filter.
pub open spec fn shown_line_seq(shown: usize, total: usize, selected: usize) -> Seq<char> {
    decimal_seq(shown as nat) + " / "@ + decimal_seq(total as nat) + " shown"@ + if selected > 0 {
        "  \u{b7}  "@ + decimal_seq(selected as nat) + " selected"@
    } else {
        Seq::<char>::empty()
    }
}

/// `"<shown> / <total> shown"`, followed by `"  ·  <n> selected"` when
/// `selected` is not zero: the line under the ID filter.
pub fn shown_line(shown: usize, total: usize, selected: usize) -> (s: String)
    ensures
        s@ == shown_line_seq(shown, total, selected),
{
    let mut v: Vec<char> = Vec::new();
    push_decimal(&mut v, shown as u64);
    push_str(&mut v, " / ");
    push_decimal(&mut v, total as u64);
    push_str(&mut v, " shown");
    if selected > 0 {
        push_str(&mut v, "  \u{b7}  ");
        push_decimal(&mut v, selected as u64);
        push_str(&mut v, " selected");
    }
    string_from_chars(&v)
}

/// The Unicode lower-case form of `s`, as `str::to_lowercase` gives it.
pub uninterp spec fn unicode_lowercase(s: Seq<char>) -> Seq<char>;

/// `str::to_lowercase`. Assumed: the result is the Unicode lower-case form of
/// `s`, named by `unicode_lowercase`.
#[verifier::external_body]
fn to_lowercase(s: &str) -> (r: String)
    ensures
        r@ == unicode_lowercase(s@),
{
    s.to_lowercase()
}

/// `s` ends with `suffix`.
pub open spec fn has_suffix(s: Seq<char>, suffix: Seq<char>) -> bool {
    suffix.len() <= s.len() && s.skip(s.len() - suffix.len()) == suffix
}

/// A file is read as a SYLK spreadsheet when its lower-cased path ends with
/// `".slk"`; otherwise it is read as a log.
pub fn is_slk_path(path: &str) -> (r: bool)
    ensures
        r == has_suffix(unicode_lowercase(path@), seq!['.', 's', 'l', 'k']),
{
    let low = to_lowercase(path);
    let cs = chars_of(low.as_str());
    let n = cs.len();
    if n < 4 {
        return false;
    }
    let r = cs[n - 4] == '.' && cs[n - 3] == 's' && cs[n - 2] == 'l' && cs[n - 1] == 'k';
    assert(r == (cs@.skip(n - 4) =~= seq!['.', 's', 'l', 'k'])) by {
        if cs@.skip(n - 4) =~= seq!['.', 's', 'l', 'k'] {
            assert(cs@.skip(n - 4)[0] == cs@[n - 4]);
            assert(cs@.skip(n - 4)[1] == cs@[n - 3]);
            assert(cs@.skip(n - 4)[2] == cs@[n - 2]);
            assert(cs@.skip(n - 4)[3] == cs@[n - 1]);
        }
    }
    r
}

} // verus!
