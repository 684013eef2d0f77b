//! GPS fixes, their grouping into per-source trails, the removal of repeated
//! positions and the counting of large jumps.
//!
//! Coordinates are kept as the text they were read from; every decision that
//! needs their numeric value (has the device moved? is a step a large jump?)
//! is made by a caller-supplied predicate, so the floating-point comparison
//! stays with the caller while the bookkeeping around it is verified here.
use vstd::prelude::*;
use rayon::iter::{IntoParallelRefMutIterator, ParallelIterator};

verus! {

/// A single GPS fix. `lat` and `lon` are the coordinate texts as read.
#[derive(Clone, Debug)]
pub struct GpsRecord {
    pub timestamp: String,
    pub source_id: String,
    pub lat: String,
    pub lon: String,
}

/// The fixes of one source, in the order they were read.
pub struct SourceTrack {
    pub source_id: String,
    pub records: Vec<GpsRecord>,
}

/// Summary returned alongside the parsed records.
pub struct ParseStats {
    /// Fixes read, before repeated positions were removed.
    pub raw_fixes: usize,
    /// Fixes kept after repeated positions were removed.
    pub after_dedup: usize,
}

// ── removal of repeated positions ────────────────────────────────────────────

/// The index that ends the run of dropped fixes after the `j`-th kept one.
pub open spec fn run_end(kept: Seq<int>, j: int, n: int) -> int {
    if j + 1 < kept.len() {
        kept[j + 1]
    } else {
        n
    }
}

/// The `(j + 1)`-th kept fix was kept because `moved` said it moved away from
/// the `j`-th.
pub open spec fn pair_moved<T, F: Fn(&T, &T) -> bool>(before: Seq<T>, kept: Seq<int>, j: int, moved: F) -> bool {
    moved.ensures((&before[kept[j + 1]], &before[kept[j]]), true)
}

/// The fixes after the `j`-th kept one and before the next kept one (or before
/// index `n`) were dropped because `moved` said they had not moved away from it.
pub open spec fn run_dropped<T, F: Fn(&T, &T) -> bool>(
    before: Seq<T>,
    kept: Seq<int>,
    j: int,
    n: int,
    moved: F,
) -> bool {
    forall|i: int|
        #![trigger before[i]]
        kept[j] < i < run_end(kept, j, n) ==> moved.ensures((&before[i], &before[kept[j]]), false)
}

/// `kept` are the indices of the fixes among the first `n` of `before` that a
/// consecutive de-duplication keeps, given the answers of `moved(fix,
/// last kept fix)`: the first fix is kept; after it, a fix is kept exactly when
/// `moved` said it moved away from the fix kept last before it.
#[verifier::opaque]
pub open spec fn kept_indices_ok<T, F: Fn(&T, &T) -> bool>(
    before: Seq<T>,
    kept: Seq<int>,
    n: int,
    moved: F,
) -> bool {
    &&& 0 <= n <= before.len()
    &&& (n == 0 <==> kept.len() == 0)
    &&& (kept.len() > 0 ==> kept[0] == 0)
    &&& forall|j: int| 0 <= j < kept.len() ==> 0 <= #[trigger] kept[j] < n
    &&& forall|a: int, b: int| 0 <= a < b < kept.len() ==> #[trigger] kept[a] < #[trigger] kept[b]
    &&& forall|j: int| 0 <= j < kept.len() - 1 ==> #[trigger] pair_moved(before, kept, j, moved)
    &&& forall|j: int| 0 <= j < kept.len() ==> #[trigger] run_dropped(before, kept, j, n, moved)
}

/// `after` is what removing consecutive repeated positions from `before` leaves,
/// where `moved(fix, last kept fix)` tells whether a fix has moved.
pub open spec fn dedup_ok<T, F: Fn(&T, &T) -> bool>(before: Seq<T>, after: Seq<T>, moved: F) -> bool {
    exists|kept: Seq<int>|
        kept_indices_ok(before, kept, before.len() as int, moved) && after == kept.map_values(
            |k: int| before[k],
        )
}

/// `moved` gives one answer for each pair of fixes.
pub open spec fn deterministic<T, F: Fn(&T, &T) -> bool>(moved: F) -> bool {
    forall|a: &T, b: &T, r1: bool, r2: bool|
        moved.ensures((a, b), r1) && moved.ensures((a, b), r2) ==> r1 == r2
}

proof fn lemma_kept_empty<T, F: Fn(&T, &T) -> bool>(before: Seq<T>, moved: F)
    ensures
        kept_indices_ok(before, Seq::<int>::empty(), 0, moved),
{
    reveal(kept_indices_ok);
}

proof fn lemma_kept_first<T, F: Fn(&T, &T) -> bool>(before: Seq<T>, kept: Seq<int>, i: int, moved: F)
    requires
        kept_indices_ok(before, kept, i, moved),
        i < before.len(),
        kept.len() == 0,
    ensures
        i == 0,
        kept_indices_ok(before, kept.push(i), i + 1, moved),
{
    reveal(kept_indices_ok);
    let k = kept.push(i);
    assert(run_dropped(before, k, 0, i + 1, moved));
}

proof fn lemma_kept_nonempty<T, F: Fn(&T, &T) -> bool>(before: Seq<T>, kept: Seq<int>, i: int, moved: F)
    requires
        kept_indices_ok(before, kept, i, moved),
        kept.len() > 0,
    ensures
        0 <= kept[kept.len() - 1] < i <= before.len(),
{
    reveal(kept_indices_ok);
}

proof fn lemma_kept_push<T, F: Fn(&T, &T) -> bool>(before: Seq<T>, kept: Seq<int>, i: int, moved: F)
    requires
        kept_indices_ok(before, kept, i, moved),
        0 < i < before.len(),
        kept.len() > 0,
        moved.ensures((&before[i], &before[kept[kept.len() - 1]]), true),
    ensures
        kept_indices_ok(before, kept.push(i), i + 1, moved),
{
    reveal(kept_indices_ok);
    let k = kept.push(i);
    let l = kept.len();
    assert forall|j: int| 0 <= j < k.len() - 1 implies #[trigger] pair_moved(before, k, j, moved) by {
        if j < l - 1 {
            assert(pair_moved(before, kept, j, moved));
        }
    }
    assert forall|j: int| 0 <= j < k.len() implies #[trigger] run_dropped(before, k, j, i + 1, moved) by {
        if j < l {
            assert(run_dropped(before, kept, j, i, moved));
            assert(run_end(k, j, i + 1) == run_end(kept, j, i));
        }
    }
    assert forall|a: int, b: int| 0 <= a < b < k.len() implies #[trigger] k[a] < #[trigger] k[b] by {
        if b < l {
            assert(kept[a] < kept[b]);
        } else {
            assert(0 <= kept[a] < i);
        }
    }
}

proof fn lemma_kept_skip<T, F: Fn(&T, &T) -> bool>(before: Seq<T>, kept: Seq<int>, i: int, moved: F)
    requires
        kept_indices_ok(before, kept, i, moved),
        0 < i < before.len(),
        kept.len() > 0,
        moved.ensures((&before[i], &before[kept[kept.len() - 1]]), false),
    ensures
        kept_indices_ok(before, kept, i + 1, moved),
{
    reveal(kept_indices_ok);
    let l = kept.len();
    assert forall|j: int| 0 <= j < l implies #[trigger] run_dropped(before, kept, j, i + 1, moved) by {
        assert(run_dropped(before, kept, j, i, moved));
        if j < l - 1 {
            assert(run_end(kept, j, i + 1) == run_end(kept, j, i));
        }
    }
}

/// Removes consecutive fixes that have not moved: the first fix is always kept,
/// and each later fix is kept exactly when `moved(fix, last kept fix)` is true.
pub fn dedup_consecutive<T, F: Fn(&T, &T) -> bool>(records: &mut Vec<T>, moved: &F)
    requires
        forall|a: &T, b: &T| moved.requires((a, b)),
    ensures
        dedup_ok(old(records)@, final(records)@, *moved),
{
    let mut input: Vec<T> = Vec::new();
    std::mem::swap(&mut input, records);
    let ghost before = input@;
    let n = input.len();
    // reverse into a stack so that popping yields the fixes in order
    let mut stack: Vec<T> = Vec::new();
    while input.len() > 0
        invariant
            n == before.len(),
            input@.len() + stack@.len() == n,
            forall|k: int| 0 <= k < input@.len() ==> #[trigger] input@[k] == before[k],
            forall|k: int| 0 <= k < stack@.len() ==> #[trigger] stack@[k] == before[n - 1 - k],
        decreases input.len(),
    {
        let x = input.pop().unwrap();
        stack.push(x);
    }
    let mut out: Vec<T> = Vec::new();
    let ghost mut kept: Seq<int> = Seq::empty();
    proof {
        lemma_kept_empty(before, *moved);
    }
    let mut i: usize = 0;
    while i < n
        invariant
            n == before.len(),
            i <= n,
            stack@.len() == n - i,
            forall|k: int| 0 <= k < stack@.len() ==> #[trigger] stack@[k] == before[n - 1 - k],
            kept_indices_ok(before, kept, i as int, *moved),
            out@ == kept.map_values(|k: int| before[k]),
            forall|a: &T, b: &T| moved.requires((a, b)),
        decreases n - i,
    {
        let r = stack.pop().unwrap();
        assert(r == before[i as int]);
        let ghost old_kept = kept;
        if out.len() == 0 {
            proof {
                lemma_kept_first(before, kept, i as int, *moved);
                kept = kept.push(i as int);
            }
            out.push(r);
        } else {
            let last = out.len() - 1;
            proof {
                lemma_kept_nonempty(before, kept, i as int, *moved);
            }
            assert(out@[last as int] == before[kept[kept.len() - 1]]);
            let keep = moved(&r, &out[last]);
            if keep {
                proof {
                    lemma_kept_push(before, kept, i as int, *moved);
                    kept = kept.push(i as int);
                }
                out.push(r);
            } else {
                proof {
                    lemma_kept_skip(before, kept, i as int, *moved);
                }
            }
        }
        assert(out@ =~= kept.map_values(|k: int| before[k]));
        i = i + 1;
    }
    *records = out;
}

/// Kept indices are strictly increasing, so there are at most `n` of them.
proof fn lemma_kept_bounds<T, F: Fn(&T, &T) -> bool>(
    before: Seq<T>,
    kept: Seq<int>,
    n: int,
    moved: F,
)
    requires
        kept_indices_ok(before, kept, n, moved),
    ensures
        kept.len() <= n <= before.len(),
        n == 0 <==> kept.len() == 0,
        kept.len() > 0 ==> kept[0] == 0,
        forall|j: int| 0 <= j < kept.len() ==> #[trigger] kept[j] >= j && kept[j] < n,
{
    reveal(kept_indices_ok);
    assert forall|j: int| 0 <= j < kept.len() implies #[trigger] kept[j] >= j && kept[j] < n by {
        lemma_kept_at_least(before, kept, n, moved, j);
    }
    if kept.len() > 0 {
        assert(kept[kept.len() - 1] >= kept.len() - 1);
    }
}

proof fn lemma_kept_at_least<T, F: Fn(&T, &T) -> bool>(
    before: Seq<T>,
    kept: Seq<int>,
    n: int,
    moved: F,
    j: int,
)
    requires
        kept_indices_ok(before, kept, n, moved),
        0 <= j < kept.len(),
    ensures
        kept[j] >= j,
    decreases j,
{
    reveal(kept_indices_ok);
    if j > 0 {
        lemma_kept_at_least(before, kept, n, moved, j - 1);
        assert(kept[j - 1] < kept[j]);
    }
}

/// The de-duplicated fixes are fixes of the input, in their input order;
/// the first fix is kept and nothing is kept from an empty input.
pub proof fn lemma_dedup_subsequence<T, F: Fn(&T, &T) -> bool>(
    before: Seq<T>,
    after: Seq<T>,
    moved: F,
)
    requires
        dedup_ok(before, after, moved),
    ensures
        after.len() <= before.len(),
        after.len() == 0 <==> before.len() == 0,
        before.len() > 0 ==> after[0] == before[0],
        forall|i: int| 0 <= i < after.len() ==> before.contains(#[trigger] after[i]),
{
    let kept = choose|kept: Seq<int>|
        kept_indices_ok(before, kept, before.len() as int, moved) && after == kept.map_values(
            |k: int| before[k],
        );
    lemma_kept_bounds(before, kept, before.len() as int, moved);
    assert forall|i: int| 0 <= i < after.len() implies before.contains(#[trigger] after[i]) by {
        assert(after[i] == before[kept[i]]);
    }
}

/// After removing repeated positions, each fix has moved away from the fix
/// before it: no two consecutive fixes of the result are at the same position.
pub proof fn lemma_dedup_no_repeats<T, F: Fn(&T, &T) -> bool>(before: Seq<T>, after: Seq<T>, moved: F)
    requires
        dedup_ok(before, after, moved),
    ensures
        forall|q: int| #![trigger after[q]] 0 <= q < after.len() - 1 ==> moved.ensures((&after[q + 1], &after[q]), true),
{
    let kept = choose|kept: Seq<int>|
        kept_indices_ok(before, kept, before.len() as int, moved) && after == kept.map_values(
            |k: int| before[k],
        );
    lemma_consecutive_moved(before, after, kept, moved);
}

/// Removing repeated positions a second time changes nothing, as long as the
/// `moved` predicate answers consistently.
pub proof fn lemma_dedup_idempotent<T, F: Fn(&T, &T) -> bool>(
    before: Seq<T>,
    once: Seq<T>,
    twice: Seq<T>,
    moved: F,
)
    requires
        deterministic::<T, F>(moved),
        dedup_ok(before, once, moved),
        dedup_ok(once, twice, moved),
    ensures
        twice == once,
{
    let k1 = choose|kept: Seq<int>|
        kept_indices_ok(before, kept, before.len() as int, moved) && once == kept.map_values(
            |k: int| before[k],
        );
    let k2 = choose|kept: Seq<int>|
        kept_indices_ok(once, kept, once.len() as int, moved) && twice == kept.map_values(
            |k: int| once[k],
        );
    lemma_consecutive_moved(before, once, k1, moved);
    lemma_kept_bounds(once, k2, once.len() as int, moved);
    assert forall|j: int| 0 <= j < k2.len() implies #[trigger] k2[j] == j by {
        lemma_second_pass_keeps_all(once, k2, moved, j);
    }
    lemma_second_pass_len(once, k2, moved);
    assert(twice =~= once);
}

/// In a de-duplicated trail, each fix moved away from the one before it.
proof fn lemma_consecutive_moved<T, F: Fn(&T, &T) -> bool>(
    before: Seq<T>,
    once: Seq<T>,
    k1: Seq<int>,
    moved: F,
)
    requires
        kept_indices_ok(before, k1, before.len() as int, moved),
        once == k1.map_values(|k: int| before[k]),
    ensures
        forall|q: int| #![trigger once[q]] 0 <= q < once.len() - 1 ==> moved.ensures((&once[q + 1], &once[q]), true),
{
    reveal(kept_indices_ok);
    assert forall|q: int| #![trigger once[q]] 0 <= q < once.len() - 1 implies moved.ensures(
        (&once[q + 1], &once[q]),
        true,
    ) by {
        assert(pair_moved(before, k1, q, moved));
        assert(once[q + 1] == before[k1[q + 1]]);
        assert(once[q] == before[k1[q]]);
    }
}

proof fn lemma_second_pass_len<T, F: Fn(&T, &T) -> bool>(once: Seq<T>, k2: Seq<int>, moved: F)
    requires
        deterministic::<T, F>(moved),
        kept_indices_ok(once, k2, once.len() as int, moved),
        forall|q: int| #![trigger once[q]] 0 <= q < once.len() - 1 ==> moved.ensures((&once[q + 1], &once[q]), true),
        forall|j: int| 0 <= j < k2.len() ==> #[trigger] k2[j] == j,
    ensures
        k2.len() == once.len(),
{
    lemma_kept_bounds(once, k2, once.len() as int, moved);
    if k2.len() < once.len() {
        reveal(kept_indices_ok);
        let j = k2.len() - 1;
        assert(k2[j] == j);
        assert(run_dropped(once, k2, j, once.len() as int, moved));
        assert(run_end(k2, j, once.len() as int) == once.len());
        assert(moved.ensures((&once[j + 1], &once[j]), false));
        assert(moved.ensures((&once[j + 1], &once[j]), true));
    }
}

proof fn lemma_second_pass_keeps_all<T, F: Fn(&T, &T) -> bool>(
    once: Seq<T>,
    k2: Seq<int>,
    moved: F,
    j: int,
)
    requires
        deterministic::<T, F>(moved),
        kept_indices_ok(once, k2, once.len() as int, moved),
        forall|q: int| #![trigger once[q]] 0 <= q < once.len() - 1 ==> moved.ensures((&once[q + 1], &once[q]), true),
        0 <= j < k2.len(),
    ensures
        k2[j] == j,
    decreases j,
{
    reveal(kept_indices_ok);
    if j > 0 {
        lemma_second_pass_keeps_all(once, k2, moved, j - 1);
        assert(k2[j - 1] == j - 1);
        assert(k2[j - 1] < k2[j]);
        if k2[j] > j {
            assert(run_dropped(once, k2, j - 1, once.len() as int, moved));
            assert(run_end(k2, j - 1, once.len() as int) == k2[j]);
            assert(moved.ensures((&once[j], &once[j - 1]), false));
            assert(moved.ensures((&once[j], &once[j - 1]), true));
        }
    }
}

// ── grouping by source ───────────────────────────────────────────────────────

/// The distinct source IDs of `recs`, in the order of their first fix.
pub open spec fn source_order(recs: Seq<GpsRecord>) -> Seq<Seq<char>>
    decreases recs.len(),
{
    if recs.len() == 0 {
        Seq::empty()
    } else {
        let p = source_order(recs.drop_last());
        if p.contains(recs.last().source_id@) {
            p
        } else {
            p.push(recs.last().source_id@)
        }
    }
}

/// The fixes of `recs` whose source ID is `id`, in order.
pub open spec fn records_of(recs: Seq<GpsRecord>, id: Seq<char>) -> Seq<GpsRecord>
    decreases recs.len(),
{
    if recs.len() == 0 {
        Seq::empty()
    } else {
        let p = records_of(recs.drop_last(), id);
        if recs.last().source_id@ == id {
            p.push(recs.last())
        } else {
            p
        }
    }
}

/// The number of fixes over all tracks.
pub open spec fn track_total(ts: Seq<SourceTrack>) -> int
    decreases ts.len(),
{
    if ts.len() == 0 {
        0
    } else {
        track_total(ts.drop_last()) + ts.last().records@.len()
    }
}

/// The number of fixes over the groups named by `ids`.
pub open spec fn group_total(recs: Seq<GpsRecord>, ids: Seq<Seq<char>>) -> int
    decreases ids.len(),
{
    if ids.len() == 0 {
        0
    } else {
        group_total(recs, ids.drop_last()) + records_of(recs, ids.last()).len()
    }
}

/// `tracks` are the per-source trails of `recs`: one per source ID in the
/// order of first appearance, each holding that source's fixes with repeated
/// positions removed.
pub open spec fn tracks_of<F: Fn(&GpsRecord, &GpsRecord) -> bool>(
    recs: Seq<GpsRecord>,
    tracks: Seq<SourceTrack>,
    moved: F,
) -> bool {
    &&& tracks.len() == source_order(recs).len()
    &&& forall|k: int|
        0 <= k < tracks.len() ==> (#[trigger] tracks[k]).source_id@ == source_order(recs)[k]
            && dedup_ok(records_of(recs, source_order(recs)[k]), tracks[k].records@, moved)
}

/// A source ID is listed once, exactly when some fix carries it.
pub proof fn lemma_source_order_members(recs: Seq<GpsRecord>)
    ensures
        forall|id: Seq<char>|
            #![trigger source_order(recs).contains(id)]
            source_order(recs).contains(id) <==> records_of(recs, id).len() > 0,
        forall|a: int, b: int|
            0 <= a < b < source_order(recs).len() ==> source_order(recs)[a] != source_order(
                recs,
            )[b],
    decreases recs.len(),
{
    if recs.len() > 0 {
        let pre = recs.drop_last();
        lemma_source_order_members(pre);
        let p = source_order(pre);
        let id0 = recs.last().source_id@;
        assert forall|id: Seq<char>|
            #![trigger source_order(recs).contains(id)]
            source_order(recs).contains(id) <==> records_of(recs, id).len() > 0 by {
            assert(p.contains(id) <==> records_of(pre, id).len() > 0);
            if !p.contains(id0) {
                if id == id0 {
                    assert(p.push(id0)[p.len() as int] == id0);
                }
                if p.push(id0).contains(id) && id != id0 {
                    let w = choose|w: int| 0 <= w < p.push(id0).len() && p.push(id0)[w] == id;
                    assert(w < p.len());
                    assert(p[w] == id);
                }
                if p.contains(id) {
                    let w = choose|w: int| 0 <= w < p.len() && p[w] == id;
                    assert(p.push(id0)[w] == id);
                }
            }
        }
    }
}

/// Each fix belongs to exactly one group, so the groups together hold every fix.
pub proof fn lemma_group_total(recs: Seq<GpsRecord>)
    ensures
        group_total(recs, source_order(recs)) == recs.len(),
    decreases recs.len(),
{
    if recs.len() > 0 {
        let pre = recs.drop_last();
        let r = recs.last();
        lemma_group_total(pre);
        lemma_source_order_members(pre);
        let p = source_order(pre);
        if p.contains(r.source_id@) {
            lemma_group_total_add(pre, recs, p, r.source_id@);
        } else {
            lemma_group_total_other(pre, recs, p, r.source_id@);
            assert(records_of(pre, r.source_id@).len() == 0);
            assert(p.push(r.source_id@).drop_last() == p);
        }
    }
}

/// Appending a fix whose source is listed in `ids` (once) adds one to the total.
proof fn lemma_group_total_add(pre: Seq<GpsRecord>, recs: Seq<GpsRecord>, ids: Seq<Seq<char>>, id: Seq<char>)
    requires
        pre.len() + 1 == recs.len(),
        pre == recs.drop_last(),
        recs.last().source_id@ == id,
        ids.contains(id),
        forall|a: int, b: int| 0 <= a < b < ids.len() ==> ids[a] != ids[b],
    ensures
        group_total(recs, ids) == group_total(pre, ids) + 1,
    decreases ids.len(),
{
    let l = ids.last();
    let rest = ids.drop_last();
    if l == id {
        assert(!rest.contains(id)) by {
            if rest.contains(id) {
                let w = choose|w: int| 0 <= w < rest.len() && rest[w] == id;
                assert(ids[w] == ids[ids.len() - 1]);
            }
        }
        lemma_group_total_other(pre, recs, rest, id);
    } else {
        let w = choose|w: int| 0 <= w < ids.len() && ids[w] == id;
        assert(w < ids.len() - 1);
        assert(rest[w] == id);
        lemma_group_total_add(pre, recs, rest, id);
    }
}

/// Appending a fix whose source is not in `ids` leaves the total unchanged.
proof fn lemma_group_total_other(pre: Seq<GpsRecord>, recs: Seq<GpsRecord>, ids: Seq<Seq<char>>, id: Seq<char>)
    requires
        pre == recs.drop_last(),
        recs.len() > 0,
        recs.last().source_id@ == id,
        !ids.contains(id),
    ensures
        group_total(recs, ids) == group_total(pre, ids),
    decreases ids.len(),
{
    if ids.len() > 0 {
        let rest = ids.drop_last();
        assert(!rest.contains(id)) by {
            if rest.contains(id) {
                let w = choose|w: int| 0 <= w < rest.len() && rest[w] == id;
                assert(ids[w] == id);
            }
        }
        assert(ids.last() != id) by {
            assert(ids[ids.len() - 1] == ids.last());
        }
        lemma_group_total_other(pre, recs, rest, id);
    }
}

/// Every fix grouped under `id` carries that source ID.
pub proof fn lemma_records_of_ids(recs: Seq<GpsRecord>, id: Seq<char>)
    ensures
        forall|i: int| 0 <= i < records_of(recs, id).len() ==> (#[trigger] records_of(recs, id)[i]).source_id@ == id,
    decreases recs.len(),
{
    if recs.len() > 0 {
        let pre = recs.drop_last();
        lemma_records_of_ids(pre, id);
        let p = records_of(pre, id);
        assert forall|i: int| 0 <= i < records_of(recs, id).len() implies (#[trigger] records_of(recs, id)[i]).source_id@ == id by {
            if i < p.len() {
                assert(records_of(recs, id)[i] == p[i]);
            }
        }
    }
}

/// The trails of a parse: one per source, none empty, each holding only fixes
/// of its source, and together no more fixes than were read (so the count of
/// removed duplicates, `raw_fixes - after_dedup`, is never negative).
pub proof fn lemma_tracks_properties<F: Fn(&GpsRecord, &GpsRecord) -> bool>(
    recs: Seq<GpsRecord>,
    tracks: Seq<SourceTrack>,
    moved: F,
)
    requires
        tracks_of(recs, tracks, moved),
    ensures
        forall|a: int, b: int| 0 <= a < b < tracks.len() ==> #[trigger] tracks[a].source_id@ != #[trigger] tracks[b].source_id@,
        forall|k: int| 0 <= k < tracks.len() ==> (#[trigger] tracks[k]).records@.len() > 0,
        forall|k: int, i: int|
            0 <= k < tracks.len() && 0 <= i < tracks[k].records@.len() ==> (#[trigger] tracks[k].records@[i]).source_id@
                == tracks[k].source_id@,
        track_total(tracks) <= recs.len(),
{
    let order = source_order(recs);
    lemma_source_order_members(recs);
    assert forall|k: int| 0 <= k < tracks.len() implies (#[trigger] tracks[k]).records@.len() > 0 by {
        assert(order.contains(order[k]));
        lemma_dedup_subsequence(records_of(recs, order[k]), tracks[k].records@, moved);
    }
    assert forall|k: int, i: int|
        0 <= k < tracks.len() && 0 <= i < tracks[k].records@.len() implies (#[trigger] tracks[k].records@[i]).source_id@
            == tracks[k].source_id@ by {
        let g = records_of(recs, order[k]);
        lemma_dedup_subsequence(g, tracks[k].records@, moved);
        lemma_records_of_ids(recs, order[k]);
        assert(g.contains(tracks[k].records@[i]));
        let w = choose|w: int| 0 <= w < g.len() && g[w] == tracks[k].records@[i];
        assert(g[w].source_id@ == order[k]);
    }
    lemma_group_total(recs);
    lemma_track_total_bound(recs, tracks, moved, tracks.len() as int);
    assert(tracks.take(tracks.len() as int) == tracks);
    assert(order.take(tracks.len() as int) == order);
}

proof fn lemma_track_total_bound<F: Fn(&GpsRecord, &GpsRecord) -> bool>(
    recs: Seq<GpsRecord>,
    tracks: Seq<SourceTrack>,
    moved: F,
    j: int,
)
    requires
        tracks_of(recs, tracks, moved),
        0 <= j <= tracks.len(),
    ensures
        track_total(tracks.take(j)) <= group_total(recs, source_order(recs).take(j)),
    decreases j,
{
    if j > 0 {
        let order = source_order(recs);
        lemma_track_total_bound(recs, tracks, moved, j - 1);
        assert(tracks.take(j).drop_last() == tracks.take(j - 1));
        assert(order.take(j).drop_last() == order.take(j - 1));
        assert(tracks[j - 1].source_id@ == order[j - 1]);
        lemma_dedup_subsequence(records_of(recs, order[j - 1]), tracks[j - 1].records@, moved);
    }
}

/// Finds the track of `id` among `tracks`.
fn find_track(tracks: &Vec<SourceTrack>, id: &String) -> (r: Option<usize>)
    ensures
        match r {
            Some(k) => k < tracks@.len() && tracks@[k as int].source_id@ == id@,
            None => forall|k: int| 0 <= k < tracks@.len() ==> (#[trigger] tracks@[k]).source_id@ != id@,
        },
{
    let mut k: usize = 0;
    while k < tracks.len()
        invariant
            k <= tracks@.len(),
            forall|q: int| 0 <= q < k ==> (#[trigger] tracks@[q]).source_id@ != id@,
        decreases tracks.len() - k,
    {
        if tracks[k].source_id == *id {
            return Some(k);
        }
        k = k + 1;
    }
    None
}

/// Groups fixes by source ID (sources in the order of their first fix, fixes
/// in reading order) and removes consecutive repeated positions within each
/// source; `moved(fix, last kept fix)` tells whether a fix has moved.
pub fn group_and_dedup<F: Fn(&GpsRecord, &GpsRecord) -> bool + Sync>(
    records: Vec<GpsRecord>,
    moved: &F,
) -> (res: (Vec<SourceTrack>, ParseStats))
    requires
        forall|a: &GpsRecord, b: &GpsRecord| moved.requires((a, b)),
    ensures
        tracks_of(records@, res.0@, *moved),
        res.1.raw_fixes == records@.len(),
        res.1.after_dedup == track_total(res.0@),
{
    let ghost recs = records@;
    let n = records.len();
    let mut input = records;
    let mut stack: Vec<GpsRecord> = Vec::new();
    while input.len() > 0
        invariant
            n == recs.len(),
            input@.len() + stack@.len() == n,
            forall|k: int| 0 <= k < input@.len() ==> #[trigger] input@[k] == recs[k],
            forall|k: int| 0 <= k < stack@.len() ==> #[trigger] stack@[k] == recs[n - 1 - k],
        decreases input.len(),
    {
        let x = input.pop().unwrap();
        stack.push(x);
    }
    // group, keeping every fix
    let mut groups: Vec<SourceTrack> = Vec::new();
    let mut i: usize = 0;
    while i < n
        invariant
            n == recs.len(),
            i <= n,
            stack@.len() == n - i,
            forall|k: int| 0 <= k < stack@.len() ==> #[trigger] stack@[k] == recs[n - 1 - k],
            groups@.len() == source_order(recs.take(i as int)).len(),
            forall|k: int|
                0 <= k < groups@.len() ==> (#[trigger] groups@[k]).source_id@ == source_order(
                    recs.take(i as int),
                )[k] && groups@[k].records@ == records_of(
                    recs.take(i as int),
                    source_order(recs.take(i as int))[k],
                ),
        decreases n - i,
    {
        let r = stack.pop().unwrap();
        let ghost pre = recs.take(i as int);
        let ghost cur = recs.take(i + 1);
        assert(cur.drop_last() == pre);
        assert(cur.last() == r);
        let ghost p = source_order(pre);
        proof {
            lemma_source_order_members(pre);
        }
        match find_track(&groups, &r.source_id) {
            Some(k) => {
                assert(p.contains(r.source_id@)) by {
                    assert(p[k as int] == r.source_id@);
                }
                assert(source_order(cur) == p);
                let mut g = groups.remove(k);
                let ghost gr = g.records@;
                g.records.push(r);
                groups.insert(k, g);
                assert forall|q: int| 0 <= q < groups@.len() implies (#[trigger] groups@[q]).source_id@
                    == source_order(cur)[q] && groups@[q].records@ == records_of(
                    cur,
                    source_order(cur)[q],
                ) by {
                    if q != k {
                        assert(p[q] != p[k as int]);
                    }
                }
            },
            None => {
                assert(!p.contains(r.source_id@)) by {
                    if p.contains(r.source_id@) {
                        let w = choose|w: int| 0 <= w < p.len() && p[w] == r.source_id@;
                        assert(groups@[w].source_id@ == r.source_id@);
                    }
                }
                assert(source_order(cur) == p.push(r.source_id@));
                let ghost rid = r.source_id@;
                let id = r.source_id.clone();
                let mut v: Vec<GpsRecord> = Vec::new();
                v.push(r);
                groups.push(SourceTrack { source_id: id, records: v });
                assert(records_of(pre, rid).len() == 0);
                assert forall|q: int| 0 <= q < groups@.len() implies (#[trigger] groups@[q]).source_id@
                    == source_order(cur)[q] && groups@[q].records@ == records_of(
                    cur,
                    source_order(cur)[q],
                ) by {
                    if q < p.len() {
                        assert(p[q] != rid);
                    } else {
                        assert(records_of(cur, rid) =~= records_of(pre, rid).push(r));
                    }
                }
            },
        }
        i = i + 1;
    }
    assert(recs.take(n as int) == recs);
    let ghost order = source_order(recs);
    proof {
        lemma_group_total(recs);
    }
    // remove repeated positions within each group, groups in parallel
    let ghost grouped = groups@;
    dedup_tracks_parallel(&mut groups, moved);
    let g = groups.len();
    let mut total: usize = 0;
    let mut j: usize = 0;
    while j < g
        invariant
            g == order.len(),
            g == groups@.len(),
            order == source_order(recs),
            j <= g,
            forall|k: int|
                0 <= k < g ==> (#[trigger] groups@[k]).source_id@ == order[k] && dedup_ok(
                    records_of(recs, order[k]),
                    groups@[k].records@,
                    *moved,
                ),
            total as int == track_total(groups@.take(j as int)),
            total as int <= group_total(recs, order.take(j as int)),
            group_total(recs, order) == n,
            n == recs.len(),
        decreases g - j,
    {
        proof {
            lemma_dedup_subsequence(records_of(recs, order[j as int]), groups@[j as int].records@, *moved);
            assert(order.take(j + 1).drop_last() == order.take(j as int));
            assert(groups@.take(j + 1).drop_last() == groups@.take(j as int));
            lemma_group_total_prefix(recs, order, j as int + 1);
        }
        total = total + groups[j].records.len();
        j = j + 1;
    }
    assert(groups@.take(g as int) == groups@);
    (groups, ParseStats { raw_fixes: n, after_dedup: total })
}

/// Removes repeated positions within every track, the tracks in parallel, by
/// `rayon`'s `par_iter_mut().for_each` applying [`dedup_consecutive`] to each
/// track's fixes. Assumed: `for_each` calls the closure once on every element
/// and returns when all calls have returned, so each track ends as
/// `dedup_consecutive` leaves it and its source ID is untouched.
#[verifier::external_body]
fn dedup_tracks_parallel<F: Fn(&GpsRecord, &GpsRecord) -> bool + Sync>(
    tracks: &mut Vec<SourceTrack>,
    moved: &F,
)
    requires
        forall|a: &GpsRecord, b: &GpsRecord| moved.requires((a, b)),
    ensures
        final(tracks)@.len() == old(tracks)@.len(),
        forall|k: int|
            0 <= k < old(tracks)@.len() ==> (#[trigger] final(tracks)@[k]).source_id == old(
                tracks,
            )@[k].source_id && dedup_ok(old(tracks)@[k].records@, final(tracks)@[k].records@, *moved),
{
    tracks.par_iter_mut().for_each(|t| dedup_consecutive(&mut t.records, moved));
}

/// The total over a prefix of the groups never exceeds the total over all.
proof fn lemma_group_total_prefix(recs: Seq<GpsRecord>, ids: Seq<Seq<char>>, j: int)
    requires
        0 <= j <= ids.len(),
    ensures
        group_total(recs, ids.take(j)) <= group_total(recs, ids),
    decreases ids.len(),
{
    if j < ids.len() {
        assert(ids.drop_last().take(j) == ids.take(j));
        lemma_group_total_prefix(recs, ids.drop_last(), j);
    } else {
        assert(ids.take(j) == ids);
    }
}

// ── large jumps ──────────────────────────────────────────────────────────────

/// The number of `true` entries of `flags`.
pub open spec fn count_true(flags: Seq<bool>) -> int
    decreases flags.len(),
{
    if flags.len() == 0 {
        0
    } else {
        count_true(flags.drop_last()) + if flags.last() {
            1int
        } else {
            0int
        }
    }
}

/// `flags[i]` is the answer of `is_jump(fix i, fix i + 1)` for each pair of
/// consecutive fixes.
pub open spec fn jump_flags_ok<T, F: Fn(&T, &T) -> bool>(recs: Seq<T>, flags: Seq<bool>, is_jump: F) -> bool {
    &&& flags.len() == if recs.len() == 0 {
        0
    } else {
        recs.len() - 1
    }
    &&& forall|i: int|
        0 <= i < flags.len() ==> is_jump.ensures((&recs[i], &recs[i + 1]), #[trigger] flags[i])
}

/// The number of consecutive pairs of fixes `(a, b)` for which `is_jump(a, b)`
/// holds.
pub fn count_large_jumps<T, F: Fn(&T, &T) -> bool>(recs: &[T], is_jump: &F) -> (n: usize)
    requires
        forall|a: &T, b: &T| is_jump.requires((a, b)),
    ensures
        exists|flags: Seq<bool>| jump_flags_ok(recs@, flags, *is_jump) && n == count_true(flags),
{
    let ghost mut flags: Seq<bool> = Seq::empty();
    let mut n: usize = 0;
    if recs.len() == 0 {
        assert(jump_flags_ok(recs@, flags, *is_jump) && 0 == count_true(flags));
        return 0;
    }
    let mut i: usize = 0;
    while i + 1 < recs.len()
        invariant
            recs@.len() >= 1,
            i + 1 <= recs@.len(),
            flags.len() == i,
            forall|q: int| 0 <= q < i ==> is_jump.ensures((&recs@[q], &recs@[q + 1]), #[trigger] flags[q]),
            n as int == count_true(flags),
            n <= i,
            forall|a: &T, b: &T| is_jump.requires((a, b)),
        decreases recs.len() - i,
    {
        let j = is_jump(&recs[i], &recs[i + 1]);
        proof {
            let old_flags = flags;
            flags = flags.push(j);
            assert(flags.drop_last() == old_flags);
        }
        if j {
            n = n + 1;
        }
        i = i + 1;
    }
    assert(jump_flags_ok(recs@, flags, *is_jump));
    n
}

} // verus!
