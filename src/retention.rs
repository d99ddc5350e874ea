use vstd::prelude::*;

use crate::record::ClipboardRecord;

verus! {

/// `a` ranks below `b` for retention: it was updated earlier, or at the same
/// time with a smaller id.
pub open spec fn older(a: ClipboardRecord, b: ClipboardRecord) -> bool {
    a.updated_at < b.updated_at || (a.updated_at == b.updated_at && a.id < b.id)
}

/// No two rows share an id.
pub open spec fn ids_unique(rows: Seq<ClipboardRecord>) -> bool {
    forall|i: int, j: int| 0 <= i < rows.len() && 0 <= j < rows.len() && i != j ==> rows[i].id != rows[j].id
}

/// Some row is not pinned.
pub open spec fn has_unpinned(rows: Seq<ClipboardRecord>) -> bool {
    exists|i: int| 0 <= i < rows.len() && !rows[i].pinned
}

/// Row `i` is unpinned and no unpinned row is older.
pub open spec fn is_lowest_unpinned(rows: Seq<ClipboardRecord>, i: int) -> bool {
    &&& 0 <= i < rows.len()
    &&& !rows[i].pinned
    &&& forall|j: int| 0 <= j < rows.len() && !rows[j].pinned ==> !older(#[trigger] rows[j], rows[i])
}

/// The index of the unpinned row that goes first.
pub open spec fn lowest_unpinned(rows: Seq<ClipboardRecord>) -> int {
    choose|i: int| is_lowest_unpinned(rows, i)
}

/// The rows that remain when, while there are more than `max` of them, the
/// oldest unpinned row is deleted; pinned rows are never deleted.
pub open spec fn evicted(rows: Seq<ClipboardRecord>, max: nat) -> Seq<ClipboardRecord>
    decreases rows.len(),
{
    if rows.len() > max && exists|i: int| is_lowest_unpinned(rows, i) {
        evicted(rows.remove(lowest_unpinned(rows)), max)
    } else {
        rows
    }
}

/// Every row set with an unpinned row has a lowest one.
proof fn lemma_lowest_exists(rows: Seq<ClipboardRecord>)
    requires
        has_unpinned(rows),
    ensures
        exists|i: int| is_lowest_unpinned(rows, i),
    decreases rows.len(),
{
    let last = rows.len() - 1;
    let front = rows.drop_last();
    assert forall|j: int| 0 <= j < last implies front[j] == rows[j] by {}
    if has_unpinned(front) {
        lemma_lowest_exists(front);
        let k = choose|i: int| is_lowest_unpinned(front, i);
        if !rows[last].pinned && older(rows[last], rows[k]) {
            assert forall|j: int| 0 <= j < rows.len() && !rows[j].pinned implies !older(
                #[trigger] rows[j],
                rows[last],
            ) by {
                if j < last {
                    assert(!older(front[j], front[k]));
                }
            }
            assert(is_lowest_unpinned(rows, last));
        } else {
            assert forall|j: int| 0 <= j < rows.len() && !rows[j].pinned implies !older(
                #[trigger] rows[j],
                rows[k],
            ) by {
                if j < last {
                    assert(!older(front[j], front[k]));
                }
            }
            assert(is_lowest_unpinned(rows, k));
        }
    } else {
        let w = choose|i: int| 0 <= i < rows.len() && !rows[i].pinned;
        if w < last {
            assert(!front[w].pinned);
        }
        assert forall|j: int| 0 <= j < rows.len() && !rows[j].pinned implies !older(
            #[trigger] rows[j],
            rows[last],
        ) by {
            if j < last {
                assert(!front[j].pinned);
            }
        }
        assert(is_lowest_unpinned(rows, last));
    }
}

/// With unique ids the lowest unpinned row is the only one of its kind.
proof fn lemma_lowest_unique(rows: Seq<ClipboardRecord>, i: int)
    requires
        ids_unique(rows),
        is_lowest_unpinned(rows, i),
    ensures
        lowest_unpinned(rows) == i,
{
    let k = lowest_unpinned(rows);
    assert(is_lowest_unpinned(rows, k));
    assert(!older(rows[k], rows[i]));
    assert(!older(rows[i], rows[k]));
}

pub(crate) proof fn lemma_remove_keeps_ids_unique(rows: Seq<ClipboardRecord>, k: int)
    requires
        ids_unique(rows),
        0 <= k < rows.len(),
    ensures
        ids_unique(rows.remove(k)),
        forall|x: ClipboardRecord| rows.remove(k).contains(x) ==> rows.contains(x),
        forall|x: ClipboardRecord| #[trigger] rows.contains(x) && x != rows[k] ==> rows.remove(k).contains(x),
        !rows.remove(k).contains(rows[k]),
{
    let r = rows.remove(k);
    assert forall|x: ClipboardRecord| r.contains(x) implies rows.contains(x) by {
        let j = choose|j: int| 0 <= j < r.len() && r[j] == x;
        if j < k {
            assert(rows[j] == x);
        } else {
            assert(rows[j + 1] == x);
        }
    }
    assert forall|x: ClipboardRecord| #[trigger] rows.contains(x) && x != rows[k] implies r.contains(x) by {
        let j = choose|j: int| 0 <= j < rows.len() && rows[j] == x;
        if j < k {
            assert(r[j] == x);
        } else {
            assert(j != k);
            assert(r[j - 1] == x);
        }
    }
    if r.contains(rows[k]) {
        let j = choose|j: int| 0 <= j < r.len() && r[j] == rows[k];
        if j < k {
            assert(rows[j].id == rows[k].id);
        } else {
            assert(rows[j + 1].id == rows[k].id);
        }
    }
}

/// Retention keeps only rows it was given, never deletes a pinned row, stops
/// at `max` rows unless only pinned rows are left, and deletes a row only when
/// it is older than every unpinned row that stays.
pub proof fn lemma_retention(rows: Seq<ClipboardRecord>, max: nat)
    requires
        ids_unique(rows),
    ensures
        ids_unique(evicted(rows, max)),
        forall|x: ClipboardRecord| #[trigger] evicted(rows, max).contains(x) ==> rows.contains(x),
        forall|x: ClipboardRecord| #[trigger] rows.contains(x) && x.pinned ==> evicted(rows, max).contains(x),
        rows.len() <= max ==> evicted(rows, max) == rows,
        rows.len() > max ==> evicted(rows, max).len() >= max,
        rows.len() > max ==> (evicted(rows, max).len() == max || !has_unpinned(evicted(rows, max))),
        forall|x: ClipboardRecord| #[trigger] rows.contains(x) && !evicted(rows, max).contains(x) ==> !x.pinned,
        forall|x: ClipboardRecord, y: ClipboardRecord|
            #[trigger] rows.contains(x) && !evicted(rows, max).contains(x) && #[trigger] evicted(rows, max).contains(y) && !y.pinned
            ==> older(x, y),
    decreases rows.len(),
{
    let result = evicted(rows, max);
    if rows.len() > max && exists|i: int| is_lowest_unpinned(rows, i) {
        let k = lowest_unpinned(rows);
        let rest = rows.remove(k);
        lemma_remove_keeps_ids_unique(rows, k);
        lemma_retention(rest, max);
        assert(result == evicted(rest, max));
        assert forall|x: ClipboardRecord, y: ClipboardRecord|
            #[trigger] rows.contains(x) && !result.contains(x) && #[trigger] result.contains(y) && !y.pinned
            implies older(x, y) by {
            if x == rows[k] {
                assert(rest.contains(y));
                let j = choose|j: int| 0 <= j < rows.len() && rows[j] == y;
                assert(!older(rows[j], rows[k]));
                if j == k {
                    assert(!rest.contains(rows[k]));
                }
                assert(rows[j].id != rows[k].id);
            } else {
                assert(rest.contains(x));
            }
        }
        assert forall|x: ClipboardRecord| #[trigger] rows.contains(x) && !result.contains(x) implies !x.pinned by {
            if x != rows[k] {
                assert(rest.contains(x));
            }
        }
        assert forall|x: ClipboardRecord| #[trigger] rows.contains(x) && x.pinned implies result.contains(x) by {
            assert(rest.contains(x));
        }
    } else if rows.len() > max {
        if has_unpinned(rows) {
            lemma_lowest_exists(rows);
        }
    }
}

/// Finds the unpinned row that retention deletes first.
fn find_lowest_unpinned(rows: &Vec<ClipboardRecord>) -> (r: Option<usize>)
    ensures
        r matches Some(i) ==> is_lowest_unpinned(rows@, i as int),
        r is None ==> !has_unpinned(rows@),
{
    let mut best: Option<usize> = None;
    let mut i: usize = 0;
    while i < rows.len()
        invariant
            i <= rows.len(),
            best matches Some(b) ==> b < i && is_lowest_unpinned(rows@.subrange(0, i as int), b as int),
            best is None ==> forall|j: int| 0 <= j < i ==> rows@[j].pinned,
        decreases rows.len() - i,
    {
        let cand = &rows[i];
        if !cand.pinned {
            match best {
                None => {
                    best = Some(i);
                },
                Some(b) => {
                    let cur = &rows[b];
                    if cand.updated_at < cur.updated_at || (cand.updated_at == cur.updated_at
                        && cand.id < cur.id) {
                        best = Some(i);
                    }
                },
            }
        }
        proof {
            let s = rows@.subrange(0, i + 1);
            assert forall|j: int| 0 <= j < i + 1 implies s[j] == rows@[j] by {}
            if let Some(b) = best {
                assert forall|j: int| 0 <= j < s.len() && !s[j].pinned implies !older(
                    #[trigger] s[j],
                    s[b as int],
                ) by {
                    if j < i {
                        assert(rows@.subrange(0, i as int)[j] == s[j]);
                    }
                    if (b as int) < i {
                        assert(rows@.subrange(0, i as int)[b as int] == s[b as int]);
                    }
                }
            }
        }
        i += 1;
    }
    proof {
        assert(rows@.subrange(0, rows@.len() as int) =~= rows@);
    }
    best
}

/// Deletes the oldest unpinned rows while there are more than `max` rows.
pub fn evict(rows: &mut Vec<ClipboardRecord>, max: u64)
    requires
        ids_unique(old(rows)@),
    ensures
        final(rows)@ == evicted(old(rows)@, max as nat),
        ids_unique(final(rows)@),
{
    while rows.len() as u64 > max
        invariant
            ids_unique(rows@),
            evicted(rows@, max as nat) == evicted(old(rows)@, max as nat),
        decreases rows.len(),
    {
        match find_lowest_unpinned(rows) {
            None => {
                return;
            },
            Some(k) => {
                proof {
                    lemma_lowest_unique(rows@, k as int);
                    lemma_remove_keeps_ids_unique(rows@, k as int);
                }
                rows.remove(k);
            },
        }
    }
}

} // verus!
