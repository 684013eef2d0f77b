//! SYLK (`.slk`) spreadsheets: the sparse grid of cell values, the columns
//! named in the header row, and the GPS fixes of the data rows.
//!
//! The grid is read record by record: an `F;` record moves the
//! cursor to the row and column of its `Y`/`X` fields, and a `C;` record stores
//! the value of its first `K` field at the cursor (quotes around it removed).
use vstd::prelude::*;
use std::collections::HashMap;
use std::collections::HashSet;
use crate::number::{is_float_seq, is_float_text, parse_u32, parse_unsigned_seq};
use crate::calendar::{excel_timestamp_seq, format_serial_timestamp, serial_in_range, SerialDateTime};
use crate::track::{group_and_dedup, track_total, tracks_of, GpsRecord, ParseStats, SourceTrack};
use crate::text::{
    chars_of, eq_ignore_ascii_case, eq_ignore_ascii_case_seq, has_prefix, lines_of, lines_seq,
    skip_chars, split_chars, split_seq, starts_with, string_from_chars, trim_both_char,
    trim_both_seq, trim_end_char, trim_end_seq,
};

verus! {

broadcast use vstd::std_specs::hash::group_hash_axioms;

// ── reading records into the grid ────────────────────────────────────────────

/// A cursor position `(row, column)`.
pub type CellPos = (u32, u32);

/// The effect of one field of an `F;` record on the cursor: `Y<n>` sets the row
/// and `X<n>` the column when `<n>` is a `u32`; other fields change nothing.
pub open spec fn format_field(pos: CellPos, part: Seq<char>) -> CellPos {
    if part.len() > 0 && part[0] == 'Y' {
        match parse_unsigned_seq(part.drop_first(), u32::MAX as int) {
            Some(n) => (n as u32, pos.1),
            None => pos,
        }
    } else if part.len() > 0 && part[0] == 'X' {
        match parse_unsigned_seq(part.drop_first(), u32::MAX as int) {
            Some(n) => (pos.0, n as u32),
            None => pos,
        }
    } else {
        pos
    }
}

/// The cursor after the fields `parts` of an `F;` record, in order.
pub open spec fn format_fields(pos: CellPos, parts: Seq<Seq<char>>) -> CellPos
    decreases parts.len(),
{
    if parts.len() == 0 {
        pos
    } else {
        format_field(format_fields(pos, parts.drop_last()), parts.last())
    }
}

/// The value a `K` field stores: without surrounding quotes when it starts with one.
pub open spec fn cell_value(k: Seq<char>) -> Seq<char> {
    if k.len() > 0 && k[0] == '"' {
        trim_both_seq(k, '"')
    } else {
        k
    }
}

/// The value of the first `K` field among `parts`, if there is one.
pub open spec fn first_k_value(parts: Seq<Seq<char>>) -> Option<Seq<char>>
    decreases parts.len(),
{
    if parts.len() == 0 {
        None
    } else if parts[0].len() > 0 && parts[0][0] == 'K' {
        Some(cell_value(parts[0].drop_first()))
    } else {
        first_k_value(parts.drop_first())
    }
}

/// The reader's state: the cursor and the cells stored so far.
pub type ScanState = (CellPos, Map<CellPos, Seq<char>>);

/// The effect of one line on the reader's state.
pub open spec fn scan_line(st: ScanState, raw: Seq<char>) -> ScanState {
    let line = trim_end_seq(raw, '\r');
    if has_prefix(line, seq!['F', ';']) {
        (format_fields(st.0, split_seq(line, ';')), st.1)
    } else if has_prefix(line, seq!['C', ';']) {
        match first_k_value(split_seq(line.skip(2), ';')) {
            Some(v) => (st.0, st.1.insert(st.0, v)),
            None => st,
        }
    } else {
        st
    }
}

/// The reader's state after the lines `lines`, starting at row 0, column 0.
pub open spec fn scan_lines(lines: Seq<Seq<char>>) -> ScanState
    decreases lines.len(),
{
    if lines.len() == 0 {
        ((0u32, 0u32), Map::empty())
    } else {
        scan_line(scan_lines(lines.drop_last()), lines.last())
    }
}

/// The cells of a SYLK document.
pub open spec fn sylk_cells(content: Seq<char>) -> Map<CellPos, Seq<char>> {
    scan_lines(lines_seq(content)).1
}

/// One stored cell.
pub struct SylkCell {
    pub row: u32,
    pub col: u32,
    pub value: Vec<char>,
}

/// The sparse grid of a SYLK document.
pub struct SylkGrid {
    cells: Vec<SylkCell>,
    index: HashMap<u64, usize>,
}

/// The lookup key of a position.
pub open spec fn pos_key(row: u32, col: u32) -> u64 {
    (row as int * 0x1_0000_0000 + col as int) as u64
}

fn key_of(row: u32, col: u32) -> (k: u64)
    ensures
        k == pos_key(row, col),
{
    (row as u64) * 0x1_0000_0000u64 + (col as u64)
}

proof fn lemma_pos_key_injective(r1: u32, c1: u32, r2: u32, c2: u32)
    ensures
        pos_key(r1, c1) == pos_key(r2, c2) ==> r1 == r2 && c1 == c2,
{
    assert(r1 as int * 0x1_0000_0000 + c1 as int <= u64::MAX as int) by (nonlinear_arith)
        requires
            r1 <= u32::MAX,
            c1 <= u32::MAX,
    ;
    assert(r2 as int * 0x1_0000_0000 + c2 as int <= u64::MAX as int) by (nonlinear_arith)
        requires
            r2 <= u32::MAX,
            c2 <= u32::MAX,
    ;
    if pos_key(r1, c1) == pos_key(r2, c2) {
        assert(r1 == r2 && c1 == c2) by (nonlinear_arith)
            requires
                r1 as int * 0x1_0000_0000 + c1 as int == r2 as int * 0x1_0000_0000 + c2 as int,
                0 <= c1 < 0x1_0000_0000,
                0 <= c2 < 0x1_0000_0000,
        ;
    }
}

impl SylkGrid {
    /// The index maps each stored position to its cell, and nothing else.
    pub closed spec fn wf(self) -> bool {
        &&& forall|i: int|
            0 <= i < self.cells@.len() ==> self.index@.contains_key(
                pos_key(#[trigger] self.cells@[i].row, self.cells@[i].col),
            ) && self.index@[pos_key(self.cells@[i].row, self.cells@[i].col)] == i
        &&& forall|k: u64|
            #[trigger] self.index@.contains_key(k) ==> self.index@[k] < self.cells@.len()
                && pos_key(
                self.cells@[self.index@[k] as int].row,
                self.cells@[self.index@[k] as int].col,
            ) == k
    }

    /// The stored value of each position.
    pub closed spec fn view(self) -> Map<CellPos, Seq<char>> {
        Map::new(
            |p: CellPos| self.index@.contains_key(pos_key(p.0, p.1)),
            |p: CellPos| self.cells@[self.index@[pos_key(p.0, p.1)] as int].value@,
        )
    }

    /// An empty grid.
    pub fn new() -> (g: Self)
        ensures
            g.wf(),
            g.view() == Map::<CellPos, Seq<char>>::empty(),
    {
        let g = SylkGrid { cells: Vec::new(), index: HashMap::new() };
        assert(g.view() =~= Map::<CellPos, Seq<char>>::empty());
        g
    }

    /// The value stored at `(row, col)`.
    pub fn get(&self, row: u32, col: u32) -> (v: Option<&Vec<char>>)
        requires
            self.wf(),
        ensures
            match v {
                Some(x) => self.view().contains_key((row, col)) && x@ == self.view()[(row, col)],
                None => !self.view().contains_key((row, col)),
            },
    {
        let k = key_of(row, col);
        match self.index.get(&k) {
            Some(i) => {
                let i = *i;
                Some(&self.cells[i].value)
            },
            None => None,
        }
    }

    /// Stores `value` at `(row, col)`, replacing what was there.
    pub fn set(&mut self, row: u32, col: u32, value: Vec<char>)
        requires
            old(self).wf(),
        ensures
            final(self).wf(),
            final(self).view() == old(self).view().insert((row, col), value@),
    {
        let k = key_of(row, col);
        let ghost old_view = self.view();
        match self.index.get(&k) {
            Some(i) => {
                let i = *i;
                let ghost old_cells = self.cells@;
                self.cells.set(i, SylkCell { row, col, value });
                assert forall|q: int| 0 <= q < self.cells@.len() implies self.index@.contains_key(
                    pos_key(#[trigger] self.cells@[q].row, self.cells@[q].col),
                ) && self.index@[pos_key(self.cells@[q].row, self.cells@[q].col)] == q by {
                    if q != i {
                        assert(self.cells@[q] == old_cells[q]);
                    }
                }
                assert forall|p: CellPos| #[trigger] self.view().contains_key(p) <==> old_view.insert((row, col), value@).contains_key(p) by {
                    lemma_pos_key_injective(p.0, p.1, row, col);
                }
                assert forall|p: CellPos| self.view().contains_key(p) implies #[trigger] self.view()[p] == old_view.insert(
                    (row, col),
                    value@,
                )[p] by {
                    lemma_pos_key_injective(p.0, p.1, row, col);
                }
                assert(self.view() =~= old_view.insert((row, col), value@));
            },
            None => {
                let n = self.cells.len();
                let ghost old_cells = self.cells@;
                let ghost old_index = self.index@;
                self.cells.push(SylkCell { row, col, value });
                self.index.insert(k, n);
                assert forall|q: int| 0 <= q < self.cells@.len() implies self.index@.contains_key(
                    pos_key(#[trigger] self.cells@[q].row, self.cells@[q].col),
                ) && self.index@[pos_key(self.cells@[q].row, self.cells@[q].col)] == q by {
                    if q < n {
                        assert(self.cells@[q] == old_cells[q]);
                        assert(old_index.contains_key(pos_key(old_cells[q].row, old_cells[q].col)));
                    }
                }
                assert forall|kk: u64| #[trigger] self.index@.contains_key(kk) implies self.index@[kk]
                    < self.cells@.len() && pos_key(
                    self.cells@[self.index@[kk] as int].row,
                    self.cells@[self.index@[kk] as int].col,
                ) == kk by {
                    if kk != k {
                        assert(old_index.contains_key(kk));
                        assert(self.cells@[old_index[kk] as int] == old_cells[old_index[kk] as int]);
                    }
                }
                assert forall|p: CellPos| #[trigger] self.view().contains_key(p) <==> old_view.insert((row, col), value@).contains_key(p) by {
                    lemma_pos_key_injective(p.0, p.1, row, col);
                }
                assert forall|p: CellPos| self.view().contains_key(p) implies #[trigger] self.view()[p] == old_view.insert(
                    (row, col),
                    value@,
                )[p] by {
                    lemma_pos_key_injective(p.0, p.1, row, col);
                    if p != (row, col) {
                        let kk = pos_key(p.0, p.1);
                        assert(old_index.contains_key(kk));
                        assert(self.cells@[old_index[kk] as int] == old_cells[old_index[kk] as int]);
                    }
                }
                assert(self.view() =~= old_view.insert((row, col), value@));
            },
        }
    }

}

/// The cursor after one field of an `F;` record.
fn apply_format_field(pos: CellPos, part: &[char]) -> (r: CellPos)
    ensures
        r == format_field(pos, part@),
{
    if part.len() > 0 && part[0] == 'Y' {
        let rest = skip_chars(part, 1);
        assert(rest@ == part@.drop_first());
        match parse_u32(&rest) {
            Some(n) => (n, pos.1),
            None => pos,
        }
    } else if part.len() > 0 && part[0] == 'X' {
        let rest = skip_chars(part, 1);
        assert(rest@ == part@.drop_first());
        match parse_u32(&rest) {
            Some(n) => (pos.0, n),
            None => pos,
        }
    } else {
        pos
    }
}

/// The value of the first `K` field among `parts`.
fn first_k(parts: &Vec<Vec<char>>, Ghost(ps): Ghost<Seq<Seq<char>>>) -> (r: Option<Vec<char>>)
    requires
        ps.len() == parts@.len(),
        forall|i: int| 0 <= i < ps.len() ==> #[trigger] parts@[i]@ == ps[i],
    ensures
        match r {
            Some(v) => first_k_value(ps) == Some(v@),
            None => first_k_value(ps) is None,
        },
{
    let mut i: usize = 0;
    assert(ps.skip(0) == ps);
    while i < parts.len()
        invariant
            ps.len() == parts@.len(),
            forall|q: int| 0 <= q < ps.len() ==> #[trigger] parts@[q]@ == ps[q],
            i <= ps.len(),
            first_k_value(ps) == first_k_value(ps.skip(i as int)),
        decreases parts.len() - i,
    {
        let part = &parts[i];
        assert(ps.skip(i as int)[0] == ps[i as int]);
        if part.len() > 0 && part[0] == 'K' {
            let k = skip_chars(part, 1);
            assert(k@ == ps[i as int].drop_first());
            let v = if k.len() > 0 && k[0] == '"' {
                trim_both_char(&k, '"')
            } else {
                k
            };
            return Some(v);
        }
        assert(ps.skip(i as int).drop_first() == ps.skip(i + 1));
        i = i + 1;
    }
    None
}

/// Reads the cells of a SYLK document.
pub fn scan_sylk(content: &str) -> (g: SylkGrid)
    ensures
        g.wf(),
        g.view() == sylk_cells(content@),
{
    let chars = chars_of(content);
    let lines = lines_of(&chars);
    let ghost ls = lines_seq(content@);
    let mut grid = SylkGrid::new();
    let mut pos: CellPos = (0, 0);
    let mut i: usize = 0;
    let f_prefix = ['F', ';'];
    let c_prefix = ['C', ';'];
    assert(f_prefix@ == seq!['F', ';']);
    assert(c_prefix@ == seq!['C', ';']);
    while i < lines.len()
        invariant
            lines@.len() == ls.len(),
            forall|k: int| 0 <= k < ls.len() ==> #[trigger] lines@[k]@ == ls[k],
            i <= ls.len(),
            grid.wf(),
            f_prefix@ == seq!['F', ';'],
            c_prefix@ == seq!['C', ';'],
            (pos, grid.view()) == scan_lines(ls.take(i as int)),
        decreases lines.len() - i,
    {
        assert(ls.take(i + 1).drop_last() == ls.take(i as int));
        assert(ls.take(i + 1).last() == ls[i as int]);
        let line = trim_end_char(&lines[i], '\r');
        if starts_with(&line, &f_prefix) {
            let parts = split_chars(&line, ';');
            let ghost ps = split_seq(line@, ';');
            let mut j: usize = 0;
            let start = pos;
            assert(ps.take(0) == Seq::<Seq<char>>::empty());
            while j < parts.len()
                invariant
                    parts@.len() == ps.len(),
                    forall|k: int| 0 <= k < ps.len() ==> #[trigger] parts@[k]@ == ps[k],
                    j <= ps.len(),
                    pos == format_fields(start, ps.take(j as int)),
                decreases parts.len() - j,
            {
                assert(ps.take(j + 1).drop_last() == ps.take(j as int));
                pos = apply_format_field(pos, &parts[j]);
                j = j + 1;
            }
            assert(ps.take(ps.len() as int) == ps);
        } else if starts_with(&line, &c_prefix) {
            let rest = skip_chars(&line, 2);
            let parts = split_chars(&rest, ';');
            match first_k(&parts, Ghost(split_seq(rest@, ';'))) {
                Some(v) => {
                    grid.set(pos.0, pos.1, v);
                },
                None => {},
            }
        }
        i = i + 1;
    }
    assert(ls.take(ls.len() as int) == ls);
    grid
}

// ── header columns ───────────────────────────────────────────────────────────

/// The header row (row 1) has at column `c` a value equal to `name` apart from
/// ASCII case.
pub open spec fn header_matches(m: Map<CellPos, Seq<char>>, c: u32, name: Seq<char>) -> bool {
    m.contains_key((1u32, c)) && eq_ignore_ascii_case_seq(m[(1u32, c)], name)
}

/// `r` is the column named `name` in the header row, the lowest one if several
/// are; `default` when none is.
pub open spec fn column_choice(m: Map<CellPos, Seq<char>>, name: Seq<char>, default: u32, r: u32) -> bool {
    if exists|c: u32| header_matches(m, c, name) {
        header_matches(m, r, name) && forall|c: u32| c < r ==> !header_matches(m, c, name)
    } else {
        r == default
    }
}

/// The column whose header is `name` (ignoring ASCII case), or `default`.
pub fn find_column(grid: &SylkGrid, name: &[char], default: u32) -> (r: u32)
    requires
        grid.wf(),
    ensures
        column_choice(grid.view(), name@, default, r),
{
    let mut best: Option<u32> = None;
    let mut i: usize = 0;
    let ghost m = grid.view();
    while i < grid.cells.len()
        invariant
            grid.wf(),
            m == grid.view(),
            i <= grid.cells@.len(),
            match best {
                Some(b) => header_matches(m, b, name@) && forall|q: int|
                    0 <= q < i && (#[trigger] grid.cells@[q]).row == 1 && eq_ignore_ascii_case_seq(
                        grid.cells@[q].value@,
                        name@,
                    ) ==> b <= grid.cells@[q].col,
                None => forall|q: int|
                    0 <= q < i ==> !((#[trigger] grid.cells@[q]).row == 1 && eq_ignore_ascii_case_seq(
                        grid.cells@[q].value@,
                        name@,
                    )),
            },
        decreases grid.cells.len() - i,
    {
        let cell = &grid.cells[i];
        if cell.row == 1 && eq_ignore_ascii_case(&cell.value, name) {
            assert(grid.index@.contains_key(pos_key(cell.row, cell.col)));
            assert(m.contains_key((1u32, cell.col)));
            assert(m[(1u32, cell.col)] == cell.value@);
            match best {
                Some(b) => {
                    if cell.col < b {
                        best = Some(cell.col);
                    }
                },
                None => {
                    best = Some(cell.col);
                },
            }
        }
        i = i + 1;
    }
    match best {
        Some(b) => {
            assert forall|c: u32| c < b implies !header_matches(m, c, name@) by {
                if header_matches(m, c, name@) {
                    let q = grid.index@[pos_key(1u32, c)] as int;
                    lemma_pos_key_injective(grid.cells@[q].row, grid.cells@[q].col, 1u32, c);
                    assert(grid.cells@[q].row == 1 && grid.cells@[q].col == c);
                }
            }
            b
        },
        None => {
            assert forall|c: u32| !header_matches(m, c, name@) by {
                if header_matches(m, c, name@) {
                    let q = grid.index@[pos_key(1u32, c)] as int;
                    lemma_pos_key_injective(grid.cells@[q].row, grid.cells@[q].col, 1u32, c);
                }
            }
            default
        },
    }
}

// ── data rows ────────────────────────────────────────────────────────────────

/// Row `r` is a data row: it is below the header row and holds some cell.
pub open spec fn is_data_row(m: Map<CellPos, Seq<char>>, r: u32) -> bool {
    r >= 2 && exists|c: u32| m.contains_key((r, c))
}

/// `rows` lists every data row once, in ascending order.
pub open spec fn data_rows_ok(m: Map<CellPos, Seq<char>>, rows: Seq<u32>) -> bool {
    &&& forall|a: int, b: int| 0 <= a < b < rows.len() ==> #[trigger] rows[a] < #[trigger] rows[b]
    &&& forall|i: int| 0 <= i < rows.len() ==> is_data_row(m, #[trigger] rows[i])
    &&& forall|r: u32| is_data_row(m, r) ==> rows.contains(r)
}

/// Inserts `x` into the ascending list `out`, which does not hold it yet.
fn insert_ascending(out: &mut Vec<u32>, x: u32)
    requires
        forall|a: int, b: int| 0 <= a < b < old(out)@.len() ==> #[trigger] old(out)@[a] < #[trigger] old(out)@[b],
        !old(out)@.contains(x),
    ensures
        forall|a: int, b: int| 0 <= a < b < final(out)@.len() ==> #[trigger] final(out)@[a] < #[trigger] final(out)@[b],
        forall|y: u32| final(out)@.contains(y) <==> old(out)@.contains(y) || y == x,
{
    let mut p: usize = 0;
    while p < out.len() && out[p] < x
        invariant
            p <= out@.len(),
            forall|q: int| 0 <= q < p ==> out@[q] < x,
        decreases out.len() - p,
    {
        p = p + 1;
    }
    let ghost before = out@;
    if p < out.len() {
        assert(out@[p as int] != x);
    }
    out.insert(p, x);
    assert forall|a: int, b: int| 0 <= a < b < out@.len() implies #[trigger] out@[a] < #[trigger] out@[b] by {
        if b < p {
            assert(out@[a] == before[a] && out@[b] == before[b]);
        } else if b == p {
            assert(out@[a] == before[a]);
        } else if a < p {
            assert(out@[b] == before[b - 1]);
            assert(before[p as int] > x);
            if b - 1 > p {
                assert(before[p as int] < before[b - 1]);
            }
        } else if a == p {
            assert(out@[b] == before[b - 1]);
            assert(before[p as int] > x);
            if b - 1 > p {
                assert(before[p as int] < before[b - 1]);
            }
        } else {
            assert(out@[a] == before[a - 1] && out@[b] == before[b - 1]);
        }
    }
    assert forall|y: u32| out@.contains(y) <==> before.contains(y) || y == x by {
        if out@.contains(y) {
            let w = choose|w: int| 0 <= w < out@.len() && out@[w] == y;
            if w < p {
                assert(before[w] == y);
            } else if w > p {
                assert(before[w - 1] == y);
            }
        }
        if before.contains(y) {
            let w = choose|w: int| 0 <= w < before.len() && before[w] == y;
            if w < p {
                assert(out@[w] == y);
            } else {
                assert(out@[w + 1] == y);
            }
        }
        if y == x {
            assert(out@[p as int] == x);
        }
    }
}

/// The data rows of the grid, ascending.
pub fn data_rows(grid: &SylkGrid) -> (rows: Vec<u32>)
    requires
        grid.wf(),
    ensures
        data_rows_ok(grid.view(), rows@),
{
    let ghost m = grid.view();
    let mut rows: Vec<u32> = Vec::new();
    let mut seen: HashSet<u32> = HashSet::new();
    let mut i: usize = 0;
    while i < grid.cells.len()
        invariant
            grid.wf(),
            m == grid.view(),
            i <= grid.cells@.len(),
            forall|a: int, b: int| 0 <= a < b < rows@.len() ==> #[trigger] rows@[a] < #[trigger] rows@[b],
            forall|y: u32| #[trigger] rows@.contains(y) <==> seen@.contains(y),
            forall|y: u32| rows@.contains(y) ==> is_data_row(m, y),
            forall|q: int| 0 <= q < i && (#[trigger] grid.cells@[q]).row >= 2 ==> rows@.contains(grid.cells@[q].row),
        decreases grid.cells.len() - i,
    {
        let r = grid.cells[i].row;
        if r >= 2 && !seen.contains(&r) {
            assert(grid.index@.contains_key(pos_key(r, grid.cells@[i as int].col)));
            assert(m.contains_key((r, grid.cells@[i as int].col)));
            insert_ascending(&mut rows, r);
            seen.insert(r);
        }
        i = i + 1;
    }
    assert forall|r: u32| is_data_row(m, r) implies rows@.contains(r) by {
        let c = choose|c: u32| m.contains_key((r, c));
        let q = grid.index@[pos_key(r, c)] as int;
        lemma_pos_key_injective(grid.cells@[q].row, grid.cells@[q].col, r, c);
        assert(grid.cells@[q].row == r);
    }
    assert forall|k: int| 0 <= k < rows@.len() implies is_data_row(m, #[trigger] rows@[k]) by {
        assert(rows@.contains(rows@[k]));
    }
    rows
}

// ── GPS fixes of the data rows ───────────────────────────────────────────────

/// The columns holding vehicle name, event time, latitude and longitude.
pub struct SlkColumns {
    pub vehicle: u32,
    pub time: u32,
    pub lat: u32,
    pub lon: u32,
}

/// The header names of the four columns, and their default positions.
pub open spec fn vehicle_header() -> Seq<char> {
    seq!['V', 'e', 'h', 'i', 'c', 'l', 'e', 'N', 'a', 'm', 'e']
}

pub open spec fn time_header() -> Seq<char> {
    seq!['E', 'v', 'e', 'n', 't', 'T', 'i', 'm', 'e']
}

pub open spec fn lat_header() -> Seq<char> {
    seq!['L', 'a', 't']
}

pub open spec fn lon_header() -> Seq<char> {
    seq!['L', 'o', 'n']
}

/// `cols` are the columns the header row names, with the default positions
/// 5, 6, 10 and 11 for names the header row lacks.
pub open spec fn slk_columns_ok(m: Map<CellPos, Seq<char>>, cols: SlkColumns) -> bool {
    &&& column_choice(m, vehicle_header(), 5, cols.vehicle)
    &&& column_choice(m, time_header(), 6, cols.time)
    &&& column_choice(m, lat_header(), 10, cols.lat)
    &&& column_choice(m, lon_header(), 11, cols.lon)
}

/// Finds the four columns of the GPS fixes.
pub fn slk_columns(grid: &SylkGrid) -> (cols: SlkColumns)
    requires
        grid.wf(),
    ensures
        slk_columns_ok(grid.view(), cols),
{
    let vn = ['V', 'e', 'h', 'i', 'c', 'l', 'e', 'N', 'a', 'm', 'e'];
    let et = ['E', 'v', 'e', 'n', 't', 'T', 'i', 'm', 'e'];
    let la = ['L', 'a', 't'];
    let lo = ['L', 'o', 'n'];
    assert(vn@ == vehicle_header());
    assert(et@ == time_header());
    assert(la@ == lat_header());
    assert(lo@ == lon_header());
    SlkColumns {
        vehicle: find_column(grid, &vn, 5),
        time: find_column(grid, &et, 6),
        lat: find_column(grid, &la, 10),
        lon: find_column(grid, &lo, 11),
    }
}

/// The text of a cell; empty when the cell is absent.
pub open spec fn cell_text(m: Map<CellPos, Seq<char>>, r: u32, c: u32) -> Seq<char> {
    if m.contains_key((r, c)) {
        m[(r, c)]
    } else {
        Seq::empty()
    }
}

/// The texts of one fix: vehicle, event time, latitude, longitude.
pub type FixText = (Seq<char>, Seq<char>, Seq<char>, Seq<char>);

/// The fix of data row `r`: none when the vehicle or the time is empty or when
/// a coordinate is not a floating-point literal.
pub open spec fn row_fix(m: Map<CellPos, Seq<char>>, cols: SlkColumns, r: u32) -> Option<FixText> {
    let v = cell_text(m, r, cols.vehicle);
    let t = cell_text(m, r, cols.time);
    let la = cell_text(m, r, cols.lat);
    let lo = cell_text(m, r, cols.lon);
    if v.len() == 0 || t.len() == 0 || !is_float_seq(la) || !is_float_seq(lo) {
        None
    } else {
        Some((v, t, la, lo))
    }
}

/// The fixes of the rows `rows`, in their order.
pub open spec fn row_fixes(m: Map<CellPos, Seq<char>>, cols: SlkColumns, rows: Seq<u32>) -> Seq<FixText>
    decreases rows.len(),
{
    if rows.len() == 0 {
        Seq::empty()
    } else {
        let p = row_fixes(m, cols, rows.drop_last());
        match row_fix(m, cols, rows.last()) {
            Some(f) => p.push(f),
            None => p,
        }
    }
}

/// The fix texts of one data row.
pub struct SlkFix {
    pub vehicle: Vec<char>,
    pub time: Vec<char>,
    pub lat: Vec<char>,
    pub lon: Vec<char>,
}

impl SlkFix {
    pub open spec fn texts(self) -> FixText {
        (self.vehicle@, self.time@, self.lat@, self.lon@)
    }
}

fn cell_or_empty(grid: &SylkGrid, r: u32, c: u32) -> (v: Vec<char>)
    requires
        grid.wf(),
    ensures
        v@ == cell_text(grid.view(), r, c),
{
    match grid.get(r, c) {
        Some(x) => x.clone(),
        None => Vec::new(),
    }
}

/// The fix of one data row.
pub fn slk_row_fix(grid: &SylkGrid, cols: &SlkColumns, r: u32) -> (f: Option<SlkFix>)
    requires
        grid.wf(),
    ensures
        match f {
            Some(x) => row_fix(grid.view(), *cols, r) == Some(x.texts()),
            None => row_fix(grid.view(), *cols, r) is None,
        },
{
    let v = cell_or_empty(grid, r, cols.vehicle);
    let t = cell_or_empty(grid, r, cols.time);
    if v.len() == 0 || t.len() == 0 {
        return None;
    }
    let la = cell_or_empty(grid, r, cols.lat);
    let lo = cell_or_empty(grid, r, cols.lon);
    if !is_float_text(&la) || !is_float_text(&lo) {
        return None;
    }
    Some(SlkFix { vehicle: v, time: t, lat: la, lon: lo })
}

// ── the whole document ───────────────────────────────────────────────────────

/// `serial` may be called on any text and, when it finds a serial date-time,
/// finds one whose date the calendar arithmetic can compute.
pub open spec fn serial_reader_ok<S: Fn(&str) -> Option<SerialDateTime>>(serial: S) -> bool {
    &&& forall|s: &str| serial.requires((s,))
    &&& forall|s: &str, o: Option<SerialDateTime>|
        #[trigger] serial.ensures((s,), o) ==> match o {
            Some(t) => serial_in_range(t),
            None => true,
        }
}

/// `ts` is the timestamp text of the event-time text `time`: the formatted
/// serial date-time when `serial` read one from it, the text itself otherwise.
pub open spec fn timestamp_of<S: Fn(&str) -> Option<SerialDateTime>>(
    serial: S,
    time: Seq<char>,
    ts: Seq<char>,
) -> bool {
    exists|s: &str, o: Option<SerialDateTime>|
        s@ == time && #[trigger] serial.ensures((s,), o) && ts == match o {
            Some(t) => excel_timestamp_seq(t),
            None => time,
        }
}

/// `recs` are the GPS records of the fix texts `fixes`, one for one.
pub open spec fn slk_records_ok<S: Fn(&str) -> Option<SerialDateTime>>(
    recs: Seq<GpsRecord>,
    fixes: Seq<FixText>,
    serial: S,
) -> bool {
    &&& recs.len() == fixes.len()
    &&& forall|k: int|
        0 <= k < recs.len() ==> (#[trigger] recs[k]).source_id@ == fixes[k].0 && recs[k].lat@
            == fixes[k].2 && recs[k].lon@ == fixes[k].3 && timestamp_of(
            serial,
            fixes[k].1,
            recs[k].timestamp@,
        )
}

/// Parses a SYLK spreadsheet into per-vehicle trails.
///
/// The header row (row 1) names the columns `VehicleName`, `EventTime`, `Lat`
/// and `Lon` (ASCII case ignored; defaults 5, 6, 10, 11). Each data row (row 2
/// on, ascending) with a vehicle name, an event time and two floating-point
/// coordinates is a fix; its timestamp is the event time read by `serial` as
/// an Excel serial date-time and formatted, or the event text itself when
/// `serial` reads nothing. The fixes are grouped by vehicle and repeated
/// positions are removed with `moved`.
pub fn parse_slk<S: Fn(&str) -> Option<SerialDateTime>, F: Fn(&GpsRecord, &GpsRecord) -> bool + Sync>(
    content: &str,
    serial: &S,
    moved: &F,
) -> (res: (Vec<SourceTrack>, ParseStats))
    requires
        serial_reader_ok(*serial),
        forall|a: &GpsRecord, b: &GpsRecord| moved.requires((a, b)),
    ensures
        exists|rows: Seq<u32>, cols: SlkColumns, recs: Seq<GpsRecord>|
            {
                &&& data_rows_ok(sylk_cells(content@), rows)
                &&& slk_columns_ok(sylk_cells(content@), cols)
                &&& slk_records_ok(recs, row_fixes(sylk_cells(content@), cols, rows), *serial)
                &&& tracks_of(recs, res.0@, *moved)
                &&& res.1.raw_fixes == recs.len()
                &&& res.1.after_dedup == track_total(res.0@)
            },
{
    let grid = scan_sylk(content);
    let ghost m = grid.view();
    let cols = slk_columns(&grid);
    let rows = data_rows(&grid);
    let mut records: Vec<GpsRecord> = Vec::new();
    let mut i: usize = 0;
    while i < rows.len()
        invariant
            grid.wf(),
            m == grid.view(),
            i <= rows@.len(),
            serial_reader_ok(*serial),
            slk_records_ok(records@, row_fixes(m, cols, rows@.take(i as int)), *serial),
        decreases rows.len() - i,
    {
        assert(rows@.take(i + 1).drop_last() == rows@.take(i as int));
        assert(rows@.take(i + 1).last() == rows@[i as int]);
        let ghost prev = row_fixes(m, cols, rows@.take(i as int));
        match slk_row_fix(&grid, &cols, rows[i]) {
            Some(fix) => {
                let time = string_from_chars(&fix.time);
                let tstr = time.as_str();
                let o = serial(tstr);
                let timestamp = match &o {
                    Some(t) => format_serial_timestamp(t),
                    None => string_from_chars(&fix.time),
                };
                assert(timestamp_of(*serial, fix.time@, timestamp@));
                let ghost f = fix.texts();
                let rec = GpsRecord {
                    timestamp,
                    source_id: string_from_chars(&fix.vehicle),
                    lat: string_from_chars(&fix.lat),
                    lon: string_from_chars(&fix.lon),
                };
                let ghost before = records@;
                records.push(rec);
                assert(row_fixes(m, cols, rows@.take(i + 1)) == prev.push(f));
                assert forall|k: int| 0 <= k < records@.len() implies (#[trigger] records@[k]).source_id@
                    == row_fixes(m, cols, rows@.take(i + 1))[k].0 && records@[k].lat@ == row_fixes(
                    m,
                    cols,
                    rows@.take(i + 1),
                )[k].2 && records@[k].lon@ == row_fixes(m, cols, rows@.take(i + 1))[k].3
                    && timestamp_of(
                    *serial,
                    row_fixes(m, cols, rows@.take(i + 1))[k].1,
                    records@[k].timestamp@,
                ) by {
                    if k < before.len() {
                        assert(records@[k] == before[k]);
                    }
                }
            },
            None => {
                assert(row_fixes(m, cols, rows@.take(i + 1)) == prev);
            },
        }
        i = i + 1;
    }
    assert(rows@.take(rows@.len() as int) == rows@);
    let ghost recs = records@;
    let res = group_and_dedup(records, moved);
    assert(data_rows_ok(m, rows@) && slk_columns_ok(m, cols) && slk_records_ok(
        recs,
        row_fixes(m, cols, rows@),
        *serial,
    ) && tracks_of(recs, res.0@, *moved) && res.1.raw_fixes == recs.len() && res.1.after_dedup
        == track_total(res.0@));
    res
}

} // verus!
